//! Reading the dependency graph from manifest text.
use vstd::prelude::*;
use crate::dependency::Dependency;
use crate::graph::{holds, keys_of, last_label, listed_edges, mentions, Graph};
use crate::write::{dependency_text, TextFormat};
use crate::text::{chars_of, pieces, slice_string, trim, trim_bounds, trim_end_bound, trim_end_char};

verus! {

/// Something in the manifests that was skipped.
#[derive(Debug, PartialEq)]
pub enum Warning {
    /// A component (first) names a dependency (second) that is no component.
    Unknown(String, String),
    /// A line (its number among the lines that count, and its text) that is
    /// not `component: dependency, ...`.
    BadLineFormat(usize, String),
}

impl View for Warning {
    /// The line number of a bad line, or none for an unknown dependency, and the texts.
    type V = (Option<nat>, Seq<char>, Seq<char>);

    open spec fn view(&self) -> (Option<nat>, Seq<char>, Seq<char>) {
        match self {
            Warning::Unknown(of, what) => (None, of@, what@),
            Warning::BadLineFormat(l, line) => (Some(*l as nat), line@, Seq::empty()),
        }
    }
}

/// The models of a list of dependencies.
pub open spec fn dependency_models(ds: Seq<(String, Dependency)>) -> Seq<(Seq<char>, Dependency)> {
    ds.map_values(|d: (String, Dependency)| (d.0@, d.1))
}

/// A dependency written as a name, strong when the name starts with `!`.
pub open spec fn named_dependency(d: Seq<char>) -> (Seq<char>, Dependency) {
    if d.len() > 0 && d[0] == '!' {
        (d.drop_first(), Dependency::Strong)
    } else {
        (d, Dependency::Weak)
    }
}

/// Writing a dependency in the full text format and reading it back gives the
/// same dependency, unless it is a weak one whose name starts with `!`; and
/// reading a name and writing the dependency back gives the same text.
pub proof fn lemma_strength_round_trip(name: Seq<char>, strength: Dependency, text: Seq<char>)
    requires
        strength == Dependency::Strong || name.len() == 0 || name[0] != '!',
    ensures
        named_dependency(dependency_text((name, strength), TextFormat::Full)) == (name, strength),
        dependency_text(named_dependency(text), TextFormat::Full) == text,
{
    reveal_strlit("!");
    if strength == Dependency::Strong {
        let written = "!"@ + name;
        assert(written[0] == '!');
        assert(written.drop_first() =~= name);
    }
    if text.len() > 0 && text[0] == '!' {
        assert("!"@ + text.drop_first() =~= text);
    }
}

/// What one line of a component's manifest declares: nothing when it is
/// blank or a `#` comment; trailing `/` do not count.
pub open spec fn dependency_in(line: Seq<char>) -> Option<(Seq<char>, Dependency)> {
    let d = trim_end_char(trim(line), '/');
    if d.len() == 0 || d[0] == '#' {
        None
    } else {
        Some(named_dependency(d))
    }
}

/// Appends `d` unless it is already there.
pub open spec fn add_once<T>(s: Seq<T>, d: T) -> Seq<T> {
    if s.contains(d) {
        s
    } else {
        s.push(d)
    }
}

/// The dependencies that the first `n` lines declare, each once, in order.
pub open spec fn declared(lines: Seq<Seq<char>>, n: int) -> Seq<(Seq<char>, Dependency)>
    decreases n,
{
    if n <= 0 {
        Seq::empty()
    } else {
        match dependency_in(lines[n - 1]) {
            Some(d) => add_once(declared(lines, n - 1), d),
            None => declared(lines, n - 1),
        }
    }
}

/// The dependencies that a component's manifest declares.
pub open spec fn manifest_dependencies(text: Seq<char>) -> Seq<(Seq<char>, Dependency)> {
    declared(pieces(text, '\n'), pieces(text, '\n').len() as int)
}

proof fn lemma_declared_push(lines: Seq<Seq<char>>, line: Seq<char>, n: int)
    requires
        0 <= n <= lines.len(),
    ensures
        declared(lines.push(line), n) == declared(lines, n),
    decreases n,
{
    if n > 0 {
        lemma_declared_push(lines, line, n - 1);
        assert(lines.push(line)[n - 1] == lines[n - 1]);
    }
}

fn push_once(out: &mut Vec<(String, Dependency)>, d: (String, Dependency))
    ensures
        dependency_models(final(out)@) == add_once(dependency_models(old(out)@), (d.0@, d.1)),
{
    let ghost m = dependency_models(out@);
    let mut k: usize = 0;
    while k < out.len()
        invariant
            m == dependency_models(out@),
            0 <= k <= out.len(),
            forall|c: int| 0 <= c < k ==> m[c] != (d.0@, d.1),
        decreases out.len() - k,
    {
        if out[k].0 == d.0 && out[k].1 == d.1 {
            assert(m[k as int] == (d.0@, d.1));
            return;
        }
        k = k + 1;
    }
    out.push(d);
    assert(dependency_models(out@) =~= m.push((d.0@, d.1)));
}

/// The dependency that `text[a..b]` declares as one line of a manifest.
fn line_dependency(text: &str, cs: &Vec<char>, a: usize, b: usize) -> (r: Option<(String, Dependency)>)
    requires
        cs@ == text@,
        a <= b <= cs.len(),
    ensures
        match r {
            Some(d) => dependency_in(cs@.subrange(a as int, b as int)) == Some((d.0@, d.1)),
            None => dependency_in(cs@.subrange(a as int, b as int)) == None::<(Seq<char>, Dependency)>,
        },
{
    let (x, y) = trim_bounds(cs, a, b);
    let z = trim_end_bound(cs, x, y, '/');
    let ghost d = cs@.subrange(x as int, z as int);
    if x == z {
        return None;
    }
    assert(d[0] == cs@[x as int]);
    if cs[x] == '#' {
        None
    } else if cs[x] == '!' {
        assert(d.drop_first() == cs@.subrange(x + 1, z as int));
        Some((slice_string(cs, x + 1, z), Dependency::Strong))
    } else {
        Some((slice_string(cs, x, z), Dependency::Weak))
    }
}

/// The dependencies that a component's manifest declares, one per line, each
/// once: `name` for a weak one, `!name` for a strong one. Blank lines and
/// `#` comments are skipped, as are trailing `/`.
pub fn manifest(text: &str) -> (r: Vec<(String, Dependency)>)
    ensures
        dependency_models(r@) == manifest_dependencies(text@),
{
    let cs = chars_of(text);
    let n = cs.len();
    let mut out: Vec<(String, Dependency)> = Vec::new();
    let ghost mut done: Seq<Seq<char>> = Seq::empty();
    let mut start: usize = 0;
    let mut i: usize = 0;
    proof {
        assert(cs@.take(0) =~= Seq::<char>::empty());
        assert(done.push(cs@.subrange(0, 0)) =~= seq![Seq::<char>::empty()]);
    }
    while i < n
        invariant
            cs@ == text@,
            n == cs.len(),
            0 <= start <= i <= n,
            pieces(cs@.take(i as int), '\n') == done.push(cs@.subrange(start as int, i as int)),
            dependency_models(out@) == declared(done, done.len() as int),
        decreases n - i,
    {
        assert(cs@.take(i + 1).drop_last() == cs@.take(i as int));
        assert(cs@.take(i + 1).last() == cs@[i as int]);
        if cs[i] == '\n' {
            let found = line_dependency(text, &cs, start, i);
            proof {
                let line = cs@.subrange(start as int, i as int);
                lemma_declared_push(done, line, done.len() as int);
            }
            if let Some(d) = found {
                push_once(&mut out, d);
            }
            proof {
                done = done.push(cs@.subrange(start as int, i as int));
                assert(cs@.subrange(i + 1, i + 1) == Seq::<char>::empty());
            }
            start = i + 1;
        } else {
            proof {
                let p = pieces(cs@.take(i as int), '\n');
                assert(p.last() == cs@.subrange(start as int, i as int));
                assert(cs@.subrange(start as int, i + 1) == cs@.subrange(start as int, i as int).push(cs@[i as int]));
                assert(p.update(p.len() - 1, p.last().push(cs@[i as int])) =~= done.push(cs@.subrange(start as int, i + 1)));
            }
        }
        i = i + 1;
    }
    let found = line_dependency(text, &cs, start, n);
    proof {
        let line = cs@.subrange(start as int, n as int);
        assert(cs@.take(n as int) == cs@);
        lemma_declared_push(done, line, done.len() as int);
    }
    if let Some(d) = found {
        push_once(&mut out, d);
    }
    out
}

/// The names of the components that have a manifest.
pub open spec fn component_names(ms: Seq<(String, String)>) -> Seq<Seq<char>> {
    ms.map_values(|p: (String, String)| p.0@)
}

/// The first `n` dependencies whose name is among `names`.
pub open spec fn known_among(names: Seq<Seq<char>>, ds: Seq<(Seq<char>, Dependency)>, n: int) -> Seq<(Seq<char>, Dependency)>
    decreases n,
{
    if n <= 0 {
        Seq::empty()
    } else if names.contains(ds[n - 1].0) {
        known_among(names, ds, n - 1).push(ds[n - 1])
    } else {
        known_among(names, ds, n - 1)
    }
}

/// The names of the first `n` dependencies that are not among `names`.
pub open spec fn unknown_among(names: Seq<Seq<char>>, ds: Seq<(Seq<char>, Dependency)>, n: int) -> Seq<Seq<char>>
    decreases n,
{
    if n <= 0 {
        Seq::empty()
    } else if names.contains(ds[n - 1].0) {
        unknown_among(names, ds, n - 1)
    } else {
        unknown_among(names, ds, n - 1).push(ds[n - 1].0)
    }
}

/// Each component with the dependencies of its manifest that are components.
pub open spec fn manifests_adjacency(ms: Seq<(String, String)>) -> Seq<(Seq<char>, Seq<(Seq<char>, Dependency)>)> {
    Seq::new(
        ms.len(),
        |i: int|
            {
                let ds = manifest_dependencies(ms[i].1@);
                (ms[i].0@, known_among(component_names(ms), ds, ds.len() as int))
            },
    )
}

/// The warnings for the first `n` components: one for each dependency that is no component.
pub open spec fn manifests_warnings(ms: Seq<(String, String)>, n: int) -> Seq<(Option<nat>, Seq<char>, Seq<char>)>
    decreases n,
{
    if n <= 0 {
        Seq::empty()
    } else {
        let ds = manifest_dependencies(ms[n - 1].1@);
        manifests_warnings(ms, n - 1) + unknown_among(component_names(ms), ds, ds.len() as int).map_values(
            |w: Seq<char>| (None::<nat>, ms[n - 1].0@, w),
        )
    }
}

/// Builds the graph from the manifest of each component, given as
/// (component, manifest text). A dependency that is no component is left out,
/// with a warning.
pub fn manifests(files: Vec<(String, String)>) -> (r: (Graph<String, Dependency>, Vec<Warning>))
    ensures
        forall|x: Seq<char>| #[trigger] r.0.keys().contains(x) <==> mentions(manifests_adjacency(files@), x),
        forall|i: int, j: int|
            0 <= i < r.0.keys().len() && 0 <= j < r.0.keys().len() ==> #[trigger] r.0.label(i, j) == last_label(
                listed_edges(manifests_adjacency(files@)),
                r.0.keys()[i],
                r.0.keys()[j],
            ),
        r.1@.map_values(|w: Warning| w@) == manifests_warnings(files@, files@.len() as int),
{
    let ghost ms = files@;
    let ghost names = component_names(ms);
    let mut components: Vec<String> = Vec::new();
    let mut e: usize = 0;
    while e < files.len()
        invariant
            ms == files@,
            names == component_names(ms),
            0 <= e <= files.len(),
            keys_of(components@) == names.take(e as int),
        decreases files.len() - e,
    {
        let c = files[e].0.clone();
        proof {
            crate::graph::lemma_keys_of_push(components@, c);
            assert(names.take(e + 1) =~= names.take(e as int).push(names[e as int]));
        }
        components.push(c);
        e = e + 1;
    }
    assert(names.take(files.len() as int) == names);
    let mut adjacency: Vec<(String, Vec<(String, Dependency)>)> = Vec::new();
    let mut warnings: Vec<Warning> = Vec::new();
    let mut e: usize = 0;
    while e < files.len()
        invariant
            ms == files@,
            names == component_names(ms),
            keys_of(components@) == names,
            0 <= e <= files.len(),
            adjacency.len() == e,
            crate::graph::adjacency_model(adjacency@) == manifests_adjacency(ms).take(e as int),
            warnings@.map_values(|w: Warning| w@) == manifests_warnings(ms, e as int),
        decreases files.len() - e,
    {
        let c = &files[e].0;
        let ds = manifest(files[e].1.as_str());
        let ghost dm = dependency_models(ds@);
        let mut known: Vec<(String, Dependency)> = Vec::new();
        let ghost warned = warnings@.map_values(|w: Warning| w@);
        let mut k: usize = 0;
        while k < ds.len()
            invariant
                ms == files@,
                names == component_names(ms),
                keys_of(components@) == names,
                0 <= e < files.len(),
                *c == ms[e as int].0,
                dm == dependency_models(ds@),
                0 <= k <= ds.len(),
                dependency_models(known@) == known_among(names, dm, k as int),
                warnings@.map_values(|w: Warning| w@) == warned + unknown_among(names, dm, k as int).map_values(
                    |w: Seq<char>| (None::<nat>, c@, w),
                ),
            decreases ds.len() - k,
        {
            let d = &ds[k];
            assert(dm[k as int] == (d.0@, d.1));
            if holds(&components, &d.0) {
                let ghost before = known@;
                known.push((d.0.clone(), d.1));
                assert(dependency_models(known@) =~= dependency_models(before).push((d.0@, d.1)));
            } else {
                let ghost before = warnings@;
                warnings.push(Warning::Unknown(c.clone(), d.0.clone()));
                assert(warnings@.map_values(|w: Warning| w@) =~= before.map_values(|w: Warning| w@).push((None::<nat>, c@, d.0@)));
                assert(unknown_among(names, dm, k + 1).map_values(|w: Seq<char>| (None::<nat>, c@, w)) =~= unknown_among(names, dm, k as int).map_values(|w: Seq<char>| (None::<nat>, c@, w)).push((None::<nat>, c@, d.0@)));
            }
            k = k + 1;
        }
        let ghost entry_model = (c@, dependency_models(known@));
        let ghost before = adjacency@;
        adjacency.push((c.clone(), known));
        proof {
            let got = crate::graph::adjacency_model(adjacency@);
            let want = manifests_adjacency(ms).take(e + 1);
            assert(dm == manifest_dependencies(ms[e as int].1@));
            assert(got[e as int] == want[e as int]);
            assert forall|x: int| 0 <= x < e + 1 implies got[x] == want[x] by {
                if x < e {
                    assert(adjacency@[x] == before[x]);
                    assert(crate::graph::adjacency_model(before)[x] == got[x]);
                }
            }
            assert(got =~= want);
            assert(manifests_warnings(ms, e + 1) =~= manifests_warnings(ms, e as int) + unknown_among(names, dm, dm.len() as int).map_values(|w: Seq<char>| (None::<nat>, c@, w)));
        }
        e = e + 1;
    }
    assert(manifests_adjacency(ms).take(files.len() as int) == manifests_adjacency(ms));
    let graph = Graph::from_adjacency(adjacency);
    (graph, warnings)
}

/// The lines that count in a full manifest: trimmed, neither blank nor a `#` comment.
pub open spec fn counted_lines(lines: Seq<Seq<char>>, n: int) -> Seq<Seq<char>>
    decreases n,
{
    if n <= 0 {
        Seq::empty()
    } else {
        let t = trim(lines[n - 1]);
        if t.len() > 0 && t[0] != '#' {
            counted_lines(lines, n - 1).push(t)
        } else {
            counted_lines(lines, n - 1)
        }
    }
}

/// The first position at or after `from` where `t` holds `c`, or -1.
pub open spec fn first_index(t: Seq<char>, c: char, from: int) -> int
    decreases t.len() - from,
{
    if from < 0 || from >= t.len() {
        -1
    } else if t[from] == c {
        from
    } else {
        first_index(t, c, from + 1)
    }
}

/// What one comma-separated part declares: nothing when blank.
pub open spec fn part_dependency(p: Seq<char>) -> Option<(Seq<char>, Dependency)> {
    let d = trim(p);
    if d.len() == 0 {
        None
    } else {
        Some(named_dependency(d))
    }
}

/// The dependencies that the first `n` parts declare, each once, in order.
pub open spec fn listed_dependencies(parts: Seq<Seq<char>>, n: int) -> Seq<(Seq<char>, Dependency)>
    decreases n,
{
    if n <= 0 {
        Seq::empty()
    } else {
        match part_dependency(parts[n - 1]) {
            Some(d) => add_once(listed_dependencies(parts, n - 1), d),
            None => listed_dependencies(parts, n - 1),
        }
    }
}

/// The dependencies after the colon of a line: comma-separated names.
pub open spec fn dependency_list(rest: Seq<char>) -> Seq<(Seq<char>, Dependency)> {
    let parts = pieces(trim(rest), ',');
    listed_dependencies(parts, parts.len() as int)
}

/// The entries of the first `n` counted lines that hold a colon.
pub open spec fn repo_entries(ls: Seq<Seq<char>>, n: int) -> Seq<(Seq<char>, Seq<(Seq<char>, Dependency)>)>
    decreases n,
{
    if n <= 0 {
        Seq::empty()
    } else {
        let t = ls[n - 1];
        let c = first_index(t, ':', 0);
        if c >= 0 {
            repo_entries(ls, n - 1).push((trim(t.take(c)), dependency_list(t.skip(c + 1))))
        } else {
            repo_entries(ls, n - 1)
        }
    }
}

/// A warning for each of the first `n` counted lines without a colon.
pub open spec fn repo_warnings(ls: Seq<Seq<char>>, n: int) -> Seq<(Option<nat>, Seq<char>, Seq<char>)>
    decreases n,
{
    if n <= 0 {
        Seq::empty()
    } else if first_index(ls[n - 1], ':', 0) >= 0 {
        repo_warnings(ls, n - 1)
    } else {
        repo_warnings(ls, n - 1).push((Some((n - 1) as nat), ls[n - 1], Seq::empty()))
    }
}

/// The counted lines of a full manifest.
pub open spec fn repo_lines(text: Seq<char>) -> Seq<Seq<char>> {
    counted_lines(pieces(text, '\n'), pieces(text, '\n').len() as int)
}

proof fn lemma_counted_push(lines: Seq<Seq<char>>, line: Seq<char>, n: int)
    requires
        0 <= n <= lines.len(),
    ensures
        counted_lines(lines.push(line), n) == counted_lines(lines, n),
    decreases n,
{
    if n > 0 {
        lemma_counted_push(lines, line, n - 1);
        assert(lines.push(line)[n - 1] == lines[n - 1]);
    }
}

proof fn lemma_repo_push(ls: Seq<Seq<char>>, t: Seq<char>, n: int)
    requires
        0 <= n <= ls.len(),
    ensures
        repo_entries(ls.push(t), n) == repo_entries(ls, n),
        repo_warnings(ls.push(t), n) == repo_warnings(ls, n),
    decreases n,
{
    if n > 0 {
        lemma_repo_push(ls, t, n - 1);
        assert(ls.push(t)[n - 1] == ls[n - 1]);
    }
}

proof fn lemma_listed_push(parts: Seq<Seq<char>>, p: Seq<char>, n: int)
    requires
        0 <= n <= parts.len(),
    ensures
        listed_dependencies(parts.push(p), n) == listed_dependencies(parts, n),
    decreases n,
{
    if n > 0 {
        lemma_listed_push(parts, p, n - 1);
        assert(parts.push(p)[n - 1] == parts[n - 1]);
    }
}

/// The dependencies listed, comma-separated, in `text[a..b]`.
fn dependency_list_at(text: &str, cs: &Vec<char>, a: usize, b: usize) -> (r: Vec<(String, Dependency)>)
    requires
        cs@ == text@,
        a <= b <= cs.len(),
    ensures
        dependency_models(r@) == dependency_list(cs@.subrange(a as int, b as int)),
{
    let (u, v) = trim_bounds(cs, a, b);
    let ghost t = cs@.subrange(u as int, v as int);
    let mut out: Vec<(String, Dependency)> = Vec::new();
    let ghost mut done: Seq<Seq<char>> = Seq::empty();
    let mut start: usize = u;
    let mut j: usize = u;
    proof {
        assert(cs@.subrange(u as int, u as int) =~= Seq::<char>::empty());
        assert(done.push(cs@.subrange(u as int, u as int)) =~= seq![Seq::<char>::empty()]);
    }
    while j < v
        invariant
            cs@ == text@,
            a <= u <= start <= j <= v <= b <= cs.len(),
            pieces(cs@.subrange(u as int, j as int), ',') == done.push(cs@.subrange(start as int, j as int)),
            dependency_models(out@) == listed_dependencies(done, done.len() as int),
        decreases v - j,
    {
        assert(cs@.subrange(u as int, j + 1).drop_last() == cs@.subrange(u as int, j as int));
        assert(cs@.subrange(u as int, j + 1).last() == cs@[j as int]);
        if cs[j] == ',' {
            let found = part_at(text, cs, start, j);
            proof {
                lemma_listed_push(done, cs@.subrange(start as int, j as int), done.len() as int);
            }
            if let Some(d) = found {
                push_once(&mut out, d);
            }
            proof {
                done = done.push(cs@.subrange(start as int, j as int));
                assert(cs@.subrange(j + 1, j + 1) == Seq::<char>::empty());
            }
            start = j + 1;
        } else {
            proof {
                let p = pieces(cs@.subrange(u as int, j as int), ',');
                assert(p.last() == cs@.subrange(start as int, j as int));
                assert(cs@.subrange(start as int, j + 1) == cs@.subrange(start as int, j as int).push(cs@[j as int]));
                assert(p.update(p.len() - 1, p.last().push(cs@[j as int])) =~= done.push(cs@.subrange(start as int, j + 1)));
            }
        }
        j = j + 1;
    }
    let found = part_at(text, cs, start, v);
    proof {
        lemma_listed_push(done, cs@.subrange(start as int, v as int), done.len() as int);
    }
    if let Some(d) = found {
        push_once(&mut out, d);
    }
    out
}

/// The dependency that the part `text[a..b]` declares.
fn part_at(text: &str, cs: &Vec<char>, a: usize, b: usize) -> (r: Option<(String, Dependency)>)
    requires
        cs@ == text@,
        a <= b <= cs.len(),
    ensures
        match r {
            Some(d) => part_dependency(cs@.subrange(a as int, b as int)) == Some((d.0@, d.1)),
            None => part_dependency(cs@.subrange(a as int, b as int)) == None::<(Seq<char>, Dependency)>,
        },
{
    let (x, y) = trim_bounds(cs, a, b);
    let ghost d = cs@.subrange(x as int, y as int);
    if x == y {
        return None;
    }
    assert(d[0] == cs@[x as int]);
    if cs[x] == '!' {
        assert(d.drop_first() == cs@.subrange(x + 1, y as int));
        Some((slice_string(cs, x + 1, y), Dependency::Strong))
    } else {
        Some((slice_string(cs, x, y), Dependency::Weak))
    }
}

/// Reads a full manifest, as printed in the full text format: one line
/// `component: dependency, !dependency, ...` per component. Blank lines and
/// `#` comments do not count; a counted line without a colon is left out,
/// with a warning that gives its number among the counted lines.
pub fn repo_manifest(manifest: String) -> (r: (Graph<String, Dependency>, Vec<Warning>))
    ensures
        ({
            let entries = repo_entries(repo_lines(manifest@), repo_lines(manifest@).len() as int);
            &&& forall|x: Seq<char>| #[trigger] r.0.keys().contains(x) <==> mentions(entries, x)
            &&& forall|i: int, j: int|
                0 <= i < r.0.keys().len() && 0 <= j < r.0.keys().len() ==> #[trigger] r.0.label(i, j)
                    == last_label(listed_edges(entries), r.0.keys()[i], r.0.keys()[j])
        }),
        r.1@.map_values(|w: Warning| w@) == repo_warnings(repo_lines(manifest@), repo_lines(manifest@).len() as int),
{
    let text = manifest.as_str();
    let cs = chars_of(text);
    let n = cs.len();
    let mut adjacency: Vec<(String, Vec<(String, Dependency)>)> = Vec::new();
    let mut warnings: Vec<Warning> = Vec::new();
    let ghost mut done: Seq<Seq<char>> = Seq::empty();
    let ghost mut counted: Seq<Seq<char>> = Seq::empty();
    let mut count: usize = 0;
    let mut start: usize = 0;
    let mut i: usize = 0;
    proof {
        assert(cs@.take(0) =~= Seq::<char>::empty());
        assert(done.push(cs@.subrange(0, 0)) =~= seq![Seq::<char>::empty()]);
    }
    loop
        invariant_except_break
            0 <= start <= i <= n,
            pieces(cs@.take(i as int), '\n') == done.push(cs@.subrange(start as int, i as int)),
            count <= start,
        invariant
            cs@ == text@,
            text@ == manifest@,
            n == cs.len(),
            counted == counted_lines(done, done.len() as int),
            count == counted.len(),
            crate::graph::adjacency_model(adjacency@) == repo_entries(counted, counted.len() as int),
            warnings@.map_values(|w: Warning| w@) == repo_warnings(counted, counted.len() as int),
        ensures
            pieces(cs@, '\n') == done,
        decreases n - i,
    {
        if i == n || cs[i] == '\n' {
            proof {
                if i == n {
                    assert(cs@.take(n as int) == cs@);
                } else {
                    assert(cs@.take(i + 1).drop_last() == cs@.take(i as int));
                    assert(cs@.take(i + 1).last() == cs@[i as int]);
                }
            }
            let ghost line = cs@.subrange(start as int, i as int);
            let (x, y) = trim_bounds(&cs, start, i);
            let ghost t = cs@.subrange(x as int, y as int);
            proof {
                lemma_counted_push(done, line, done.len() as int);
            }
            if y > x && cs[x] != '#' {
                assert(t[0] == cs@[x as int]);
                proof {
                    lemma_repo_push(counted, t, counted.len() as int);
                }
                let mut p: usize = x;
                while p < y && cs[p] != ':'
                    invariant
                        x <= p <= y <= cs.len(),
                        t == cs@.subrange(x as int, y as int),
                        first_index(t, ':', 0) == first_index(t, ':', p - x),
                    decreases y - p,
                {
                    assert(t[p - x] == cs@[p as int]);
                    p = p + 1;
                }
                if p < y {
                    assert(t[p - x] == cs@[p as int]);
                    assert(first_index(t, ':', 0) == p - x);
                    let (cx, cy) = trim_bounds(&cs, x, p);
                    assert(t.take(p - x) == cs@.subrange(x as int, p as int));
                    assert(t.skip(p - x + 1) == cs@.subrange(p + 1, y as int));
                    let component = slice_string(&cs, cx, cy);
                    let deps = dependency_list_at(text, &cs, p + 1, y);
                    let ghost before = adjacency@;
                    let ghost entry_model = (component@, dependency_models(deps@));
                    adjacency.push((component, deps));
                    proof {
                        assert(crate::graph::adjacency_model(adjacency@) =~= crate::graph::adjacency_model(before).push(entry_model));
                    }
                } else {
                    assert(first_index(t, ':', p - x) == -1);
                    let ghost before = warnings@;
                    warnings.push(Warning::BadLineFormat(count, slice_string(&cs, x, y)));
                    proof {
                        assert(warnings@.map_values(|w: Warning| w@) =~= before.map_values(|w: Warning| w@).push((Some(count as nat), t, Seq::<char>::empty())));
                    }
                }
                proof {
                    counted = counted.push(t);
                }
                count = count + 1;
            }
            proof {
                done = done.push(line);
            }
            if i == n {
                break;
            }
            proof {
                assert(cs@.subrange(i + 1, i + 1) == Seq::<char>::empty());
            }
            start = i + 1;
        } else {
            proof {
                assert(cs@.take(i + 1).drop_last() == cs@.take(i as int));
                assert(cs@.take(i + 1).last() == cs@[i as int]);
                let p = pieces(cs@.take(i as int), '\n');
                assert(p.last() == cs@.subrange(start as int, i as int));
                assert(cs@.subrange(start as int, i + 1) == cs@.subrange(start as int, i as int).push(cs@[i as int]));
                assert(p.update(p.len() - 1, p.last().push(cs@[i as int])) =~= done.push(cs@.subrange(start as int, i + 1)));
            }
        }
        i = i + 1;
    }
    let graph = Graph::from_adjacency(adjacency);
    (graph, warnings)
}

} // verus!
