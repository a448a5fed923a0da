//! Read-only views of a graph: a vertex mask and an edge mask over its storage.
use vstd::prelude::*;
use crate::vertex::{Edge, Vertex};
use super::{
    all_labels, callable, computes, closure_edge_mask, closure_vertex_mask, edge_mask_keeping, edge_mask_within, edges_answered, vertices_answered,
    empty_edge_mask, full_edge_mask, full_vertex_mask, masks_wf, reachable, reached,
    roots_mask, vertex_mask_keeping, has_incoming, Graph,
};

verus! {

spec fn count_true(s: Seq<bool>) -> nat
    decreases s.len(),
{
    if s.len() == 0 {
        0
    } else {
        count_true(s.drop_last()) + if s.last() {
            1nat
        } else {
            0nat
        }
    }
}

proof fn lemma_count_true_bound(s: Seq<bool>)
    ensures
        count_true(s) <= s.len(),
    decreases s.len(),
{
    if s.len() > 0 {
        lemma_count_true_bound(s.drop_last());
    }
}

proof fn lemma_count_true_set(s: Seq<bool>, i: int)
    requires
        0 <= i < s.len(),
        !s[i],
    ensures
        count_true(s.update(i, true)) == count_true(s) + 1,
    decreases s.len(),
{
    let t = s.update(i, true);
    if i < s.len() - 1 {
        assert(t.drop_last() == s.drop_last().update(i, true));
        lemma_count_true_set(s.drop_last(), i);
    } else {
        assert(t.drop_last() == s.drop_last());
    }
}

/// Every accepted edge out of vertex `v` leads to a marked vertex.
spec fn closed_at<E>(rows: Seq<Seq<(usize, E)>>, keep: spec_fn(E) -> bool, marked: Seq<bool>, v: int) -> bool {
    forall|k: int| 0 <= k < rows[v].len() && keep(#[trigger] rows[v][k].1) ==> marked[rows[v][k].0 as int]
}

proof fn lemma_reached_len<E>(rows: Seq<Seq<(usize, E)>>, vm: Seq<bool>, keep: spec_fn(E) -> bool, d: nat)
    ensures
        reached(rows, vm, keep, d).len() == vm.len(),
    decreases d,
{
    if d > 0 {
        lemma_reached_len(rows, vm, keep, (d - 1) as nat);
    }
}

proof fn lemma_reaches_step<E>(rows: Seq<Seq<(usize, E)>>, vm: Seq<bool>, keep: spec_fn(E) -> bool, i: int, k: int, d: nat)
    requires
        0 <= i < rows.len(),
        0 <= k < rows[i].len(),
        (rows[i][k].0 as int) < vm.len(),
        keep(rows[i][k].1),
        reached(rows, vm, keep, d)[i],
    ensures
        reached(rows, vm, keep, d + 1)[rows[i][k].0 as int],
{
    assert(((d + 1) - 1) as nat == d);
}

proof fn lemma_reached_mono<E>(rows: Seq<Seq<(usize, E)>>, vm: Seq<bool>, k1: spec_fn(E) -> bool, k2: spec_fn(E) -> bool, v: int, d: nat)
    requires
        forall|e: E| #[trigger] k1(e) ==> k2(e),
        rows.len() == vm.len(),
        0 <= v < vm.len(),
        reached(rows, vm, k1, d)[v],
    ensures
        reached(rows, vm, k2, d)[v],
    decreases d,
{
    if d > 0 {
        let prev = reached(rows, vm, k1, (d - 1) as nat);
        lemma_reached_len(rows, vm, k1, (d - 1) as nat);
        lemma_reached_len(rows, vm, k2, (d - 1) as nat);
        if prev[v] {
            lemma_reached_mono(rows, vm, k1, k2, v, (d - 1) as nat);
        } else {
            let (i, k) = choose|i: int, k: int|
                0 <= i < rows.len() && 0 <= k < rows[i].len() && #[trigger] rows[i][k].0 == v && k1(rows[i][k].1)
                    && prev[i];
            lemma_reached_mono(rows, vm, k1, k2, i, (d - 1) as nat);
            assert(k2(rows[i][k].1));
        }
    }
}

proof fn lemma_closed_marks_reachable<E>(
    rows: Seq<Seq<(usize, E)>>,
    vm: Seq<bool>,
    keep: spec_fn(E) -> bool,
    marked: Seq<bool>,
    v: int,
    d: nat,
)
    requires
        super::rows_wf(rows, rows.len() as int),
        vm.len() == rows.len(),
        marked.len() == rows.len(),
        0 <= v < rows.len(),
        forall|w: int| 0 <= w < rows.len() && vm[w] ==> marked[w],
        forall|w: int| 0 <= w < rows.len() && marked[w] ==> closed_at(rows, keep, marked, w),
        reached(rows, vm, keep, d)[v],
    ensures
        marked[v],
    decreases d,
{
    if d > 0 {
        let prev = reached(rows, vm, keep, (d - 1) as nat);
        lemma_reached_len(rows, vm, keep, (d - 1) as nat);
        if prev[v] {
            lemma_closed_marks_reachable(rows, vm, keep, marked, v, (d - 1) as nat);
        } else {
            let (i, k) = choose|i: int, k: int|
                0 <= i < rows.len() && 0 <= k < rows[i].len() && #[trigger] rows[i][k].0 == v && keep(rows[i][k].1)
                    && prev[i];
            lemma_closed_marks_reachable(rows, vm, keep, marked, i, (d - 1) as nat);
            assert(closed_at(rows, keep, marked, i));
            assert(keep(rows[i][k].1));
        }
    }
}

/// A view of a graph that includes some of its vertices and some of its edges.
///
/// The edge mask runs parallel to the graph's rows: `edge_mask[i][k]` says
/// whether the `k`-th edge out of vertex `i` is included.
#[derive(Debug)]
pub struct Subgraph<'g, V: Vertex, E: Edge> {
    pub(crate) graph: &'g Graph<V, E>,
    pub(crate) vertex_mask: Vec<bool>,
    pub(crate) edge_mask: Vec<Vec<bool>>,
}

impl<'g, V: Vertex, E: Edge> Subgraph<'g, V, E> {
    /// The graph viewed.
    pub open(crate) spec fn graph(&self) -> Graph<V, E> {
        *self.graph
    }

    /// Which vertices are included, by index.
    pub open(crate) spec fn vmask(&self) -> Seq<bool> {
        self.vertex_mask@
    }

    /// Which edges are included, by source index and position in its row.
    pub open(crate) spec fn emask(&self) -> Seq<Seq<bool>> {
        self.edge_mask@.map_values(|m: Vec<bool>| m@)
    }

    #[verifier::type_invariant]
    pub(crate) open spec fn well_formed(self) -> bool {
        masks_wf(self.graph.rows(), self.vmask(), self.emask())
    }

    /// Views `graph` through the given masks.
    fn with_masks(graph: &'g Graph<V, E>, vertex_mask: Vec<bool>, edge_mask: Vec<Vec<bool>>) -> (r: Self)
        requires
            masks_wf(graph.rows(), vertex_mask@, edge_mask@.map_values(|m: Vec<bool>| m@)),
        ensures
            r.graph() == *graph,
            r.vmask() == vertex_mask@,
            r.emask() == edge_mask@.map_values(|m: Vec<bool>| m@),
    {
        Subgraph { graph, vertex_mask, edge_mask }
    }

    /// The vertices of `graph` that `vertex_mask` includes, with no edges.
    pub(crate) fn of_vertices(graph: &'g Graph<V, E>, vertex_mask: Vec<bool>) -> (r: Self)
        requires
            vertex_mask@.len() == graph.keys().len(),
        ensures
            r.graph() == *graph,
            r.vmask() == vertex_mask@,
            r.emask() == empty_edge_mask(graph.rows()),
    {
        proof {
            use_type_invariant(graph);
        }
        let n = graph.vertices.len();
        let mut em: Vec<Vec<bool>> = Vec::new();
        let mut i: usize = 0;
        while i < n
            invariant
                graph.wf(),
                n == graph.keys().len(),
                0 <= i <= n,
                em@.len() == i,
                forall|a: int| 0 <= a < i ==> (#[trigger] em@[a])@ == empty_edge_mask(graph.rows())[a],
            decreases n - i,
        {
            let len = graph.edges[i].len();
            let mut row: Vec<bool> = Vec::new();
            while row.len() < len
                invariant
                    row.len() <= len,
                    forall|k: int| 0 <= k < row.len() ==> !row@[k],
                decreases len - row.len(),
            {
                row.push(false);
            }
            proof {
                assert(graph.rows()[i as int] == graph.edges@[i as int]@);
                assert(row@ == empty_edge_mask(graph.rows())[i as int]);
            }
            em.push(row);
            i = i + 1;
        }
        proof {
            assert(em@.map_values(|m: Vec<bool>| m@) =~= empty_edge_mask(graph.rows()));
        }
        Self::with_masks(graph, vertex_mask, em)
    }

    /// The included vertices, ascending.
    pub(crate) fn vertices_as_selected(&self) -> (r: Vec<&'g V>)
        ensures
            r@.map_values(|v: &V| v@) == super::selected(self.graph().keys(), self.vmask(), self.graph().keys().len() as int),
    {
        proof {
            use_type_invariant(self);
            use_type_invariant(self.graph);
            super::lemma_listing_vertices(self.graph().keys(), self.graph().rows(), self.vmask(), self.emask(), self.graph().keys().len() as int);
        }
        self.vertices()
    }

    /// The whole of `graph`.
    pub(crate) fn whole(graph: &'g Graph<V, E>) -> (r: Self)
        ensures
            r.graph() == *graph,
            r.vmask() == full_vertex_mask(graph.keys().len() as int),
            r.emask() == full_edge_mask(graph.rows()),
    {
        proof {
            use_type_invariant(graph);
        }
        let n = graph.vertices.len();
        let mut vm: Vec<bool> = Vec::new();
        let mut em: Vec<Vec<bool>> = Vec::new();
        let mut i: usize = 0;
        while i < n
            invariant
                graph.wf(),
                n == graph.keys().len(),
                0 <= i <= n,
                vm@ == full_vertex_mask(i as int),
                em@.len() == i,
                forall|a: int| 0 <= a < i ==> (#[trigger] em@[a])@ == full_edge_mask(graph.rows())[a],
            decreases n - i,
        {
            let len = graph.edges[i].len();
            let mut row: Vec<bool> = Vec::new();
            while row.len() < len
                invariant
                    row.len() <= len,
                    forall|k: int| 0 <= k < row.len() ==> row@[k],
                decreases len - row.len(),
            {
                row.push(true);
            }
            proof {
                assert(graph.rows()[i as int] == graph.edges@[i as int]@);
                assert(row@ == full_edge_mask(graph.rows())[i as int]);
                assert(vm@.push(true) == full_vertex_mask(i + 1));
            }
            vm.push(true);
            em.push(row);
            i = i + 1;
        }
        proof {
            assert(em@.map_values(|m: Vec<bool>| m@) =~= full_edge_mask(graph.rows()));
        }
        Self::with_masks(graph, vm, em)
    }

    /// The edge mask cut down to edges whose two ends `vm` includes.
    fn edges_within(&self, vm: &Vec<bool>) -> (em: Vec<Vec<bool>>)
        requires
            vm.len() == self.vmask().len(),
            forall|v: int| 0 <= v < vm.len() && vm@[v] ==> self.vmask()[v],
        ensures
            em@.map_values(|m: Vec<bool>| m@) == edge_mask_within(self.graph().rows(), vm@, self.emask()),
            masks_wf(self.graph().rows(), vm@, em@.map_values(|m: Vec<bool>| m@)),
    {
        proof {
            use_type_invariant(self);
            use_type_invariant(self.graph);
        }
        let ghost rows = self.graph().rows();
        let ghost target = edge_mask_within(rows, vm@, self.emask());
        let n = self.vertex_mask.len();
        let mut em: Vec<Vec<bool>> = Vec::new();
        let mut i: usize = 0;
        while i < n
            invariant
                rows == self.graph().rows(),
                masks_wf(rows, self.vmask(), self.emask()),
                super::rows_wf(rows, rows.len() as int),
                target == edge_mask_within(rows, vm@, self.emask()),
                n == rows.len(),
                vm.len() == n,
                0 <= i <= n,
                em@.len() == i,
                forall|a: int| 0 <= a < i ==> (#[trigger] em@[a])@ == target[a],
            decreases n - i,
        {
            let edges = &self.graph.edges[i];
            let mask = &self.edge_mask[i];
            assert(rows[i as int] == edges@);
            assert(self.emask()[i as int] == mask@);
            let mut row: Vec<bool> = Vec::new();
            let mut k: usize = 0;
            while k < edges.len()
                invariant
                    rows == self.graph().rows(),
                    masks_wf(rows, self.vmask(), self.emask()),
                    super::rows_wf(rows, rows.len() as int),
                    n == rows.len(),
                    vm.len() == n,
                    i < n,
                    rows[i as int] == edges@,
                    self.emask()[i as int] == mask@,
                    mask.len() == edges.len(),
                    0 <= k <= edges.len(),
                    target == edge_mask_within(rows, vm@, self.emask()),
                    row@.len() == k,
                    forall|c: int| 0 <= c < k ==> row@[c] == target[i as int][c],
                decreases edges.len() - k,
            {
                let to = edges[k].0;
                let keep = mask[k] && vm[i] && vm[to];
                assert(target[i as int][k as int] == keep);
                row.push(keep);
                k = k + 1;
            }
            assert(row@ == target[i as int]);
            em.push(row);
            i = i + 1;
        }
        proof {
            assert(em@.map_values(|m: Vec<bool>| m@) =~= target);
        }
        em
    }

    /// Keeps the included vertices that `predicate` accepts, and the included
    /// edges between kept vertices. Each kept bit is what `predicate`
    /// answered on that vertex.
    pub fn filter_vertices<P: Fn(&V) -> bool>(&self, predicate: P) -> (r: Subgraph<'g, V, E>)
        requires
            callable(predicate),
        ensures
            r.graph() == self.graph(),
            vertices_answered(self.graph(), self.vmask(), predicate, r.vmask()),
            r.emask() == edge_mask_within(self.graph().rows(), r.vmask(), self.emask()),
            forall|keep: spec_fn(V) -> bool| #[trigger] computes(predicate, keep) ==> r.vmask() == vertex_mask_keeping(
                self.vmask(),
                |i: int| keep(self.graph().vertex(i)),
            ),
    {
        proof {
            use_type_invariant(self);
            use_type_invariant(self.graph);
        }
        let ghost vm0 = self.vmask();
        let ghost g = self.graph();
        let n = self.vertex_mask.len();
        let mut vm: Vec<bool> = Vec::new();
        let mut i: usize = 0;
        while i < n
            invariant
                callable(predicate),
                vm0 == self.vmask(),
                g == self.graph(),
                n == vm0.len(),
                n == self.graph.vertices.len(),
                0 <= i <= n,
                vm@.len() == i,
                forall|j: int| 0 <= j < i && vm0[j] ==> call_ensures(predicate, (&g.vertex(j),), #[trigger] vm@[j]),
                forall|j: int| 0 <= j < i && !vm0[j] ==> !(#[trigger] vm@[j]),
            decreases n - i,
        {
            let v = &self.graph.vertices[i];
            assert(g.vertex(i as int) == *v);
            let kept = self.vertex_mask[i] && predicate(v);
            vm.push(kept);
            i = i + 1;
        }
        proof {
            assert forall|keep: spec_fn(V) -> bool| #[trigger] computes(predicate, keep) implies vm@ == vertex_mask_keeping(
                vm0,
                |i: int| keep(g.vertex(i)),
            ) by {
                assert forall|j: int| 0 <= j < n implies vm@[j] == (vm0[j] && keep(g.vertex(j))) by {
                    if vm0[j] {
                        assert(call_ensures(predicate, (&g.vertex(j),), vm@[j]));
                    }
                }
                assert(vm@ =~= vertex_mask_keeping(vm0, |i: int| keep(g.vertex(i))));
            }
        }
        let em = self.edges_within(&vm);
        Self::with_masks(self.graph, vm, em)
    }

    /// Keeps every included vertex, and the included edges whose label
    /// `predicate` accepts. Each kept bit is what `predicate` answered on
    /// that edge's label.
    pub fn filter_edges<P: Fn(&E) -> bool>(&self, predicate: P) -> (r: Subgraph<'g, V, E>)
        requires
            callable(predicate),
        ensures
            r.graph() == self.graph(),
            r.vmask() == self.vmask(),
            edges_answered(self.graph().rows(), self.emask(), predicate, r.emask()),
            forall|keep: spec_fn(E) -> bool| #[trigger] computes(predicate, keep) ==> r.emask() == edge_mask_keeping(
                self.graph().rows(),
                self.emask(),
                keep,
            ),
    {
        proof {
            use_type_invariant(self);
            use_type_invariant(self.graph);
        }
        let ghost rows = self.graph().rows();
        let ghost em0 = self.emask();
        let n = self.vertex_mask.len();
        let mut vm: Vec<bool> = Vec::new();
        let mut em: Vec<Vec<bool>> = Vec::new();
        let mut i: usize = 0;
        while i < n
            invariant
                callable(predicate),
                rows == self.graph().rows(),
                em0 == self.emask(),
                masks_wf(rows, self.vmask(), em0),
                n == rows.len(),
                0 <= i <= n,
                vm@ == self.vmask().take(i as int),
                em@.len() == i,
                forall|a: int| 0 <= a < i ==> (#[trigger] em@[a])@.len() == rows[a].len(),
                forall|a: int, x: int|
                    0 <= a < i && 0 <= x < rows[a].len() && em0[a][x] ==> call_ensures(predicate, (&rows[a][x].1,), #[trigger] em@[a]@[x]),
                forall|a: int, x: int| 0 <= a < i && 0 <= x < rows[a].len() && !em0[a][x] ==> !#[trigger] em@[a]@[x],
            decreases n - i,
        {
            let edges = &self.graph.edges[i];
            let mask = &self.edge_mask[i];
            assert(rows[i as int] == edges@);
            assert(em0[i as int] == mask@);
            let mut row: Vec<bool> = Vec::new();
            let mut k: usize = 0;
            while k < edges.len()
                invariant
                    callable(predicate),
                    rows == self.graph().rows(),
                    masks_wf(rows, self.vmask(), em0),
                    n == rows.len(),
                    i < n,
                    rows[i as int] == edges@,
                    em0[i as int] == mask@,
                    mask.len() == edges.len(),
                    0 <= k <= edges.len(),
                    row@.len() == k,
                    forall|x: int| 0 <= x < k && em0[i as int][x] ==> call_ensures(predicate, (&rows[i as int][x].1,), row@[x]),
                    forall|x: int| 0 <= x < k && !em0[i as int][x] ==> !row@[x],
                decreases edges.len() - k,
            {
                let label = edges[k].1;
                let kept = mask[k] && predicate(&label);
                row.push(kept);
                k = k + 1;
            }
            assert(vm@.push(self.vertex_mask@[i as int]) == self.vmask().take(i + 1));
            vm.push(self.vertex_mask[i]);
            em.push(row);
            proof {
                assert forall|a: int, x: int|
                    0 <= a < i + 1 && 0 <= x < rows[a].len() && em0[a][x] implies call_ensures(predicate, (&rows[a][x].1,), #[trigger] em@[a]@[x]) by {
                    if a == i {
                        assert(em@[a]@ == row@);
                    }
                }
                assert forall|a: int, x: int| 0 <= a < i + 1 && 0 <= x < rows[a].len() && !em0[a][x] implies !#[trigger] em@[a]@[x] by {
                    if a == i {
                        assert(em@[a]@ == row@);
                    }
                }
            }
            i = i + 1;
        }
        let ghost emm = em@.map_values(|m: Vec<bool>| m@);
        proof {
            assert(vm@ == self.vmask());
            assert forall|a: int| 0 <= a < n implies (#[trigger] emm[a]) == em@[a]@ by {}
            assert forall|a: int, x: int| 0 <= a < n && 0 <= x < rows[a].len() && #[trigger] emm[a][x] implies em0[a][x] by {
                assert(emm[a] == em@[a]@);
            }
            assert forall|keep: spec_fn(E) -> bool| #[trigger] computes(predicate, keep) implies emm == edge_mask_keeping(rows, em0, keep) by {
                let target = edge_mask_keeping(rows, em0, keep);
                assert forall|a: int| 0 <= a < n implies #[trigger] emm[a] == target[a] by {
                    assert forall|x: int| 0 <= x < rows[a].len() implies emm[a][x] == target[a][x] by {
                        assert(emm[a] == em@[a]@);
                        if em0[a][x] {
                            assert(call_ensures(predicate, (&rows[a][x].1,), em@[a]@[x]));
                        }
                    }
                    assert(emm[a] =~= target[a]);
                }
                assert(emm =~= target);
            }
        }
        Self::with_masks(self.graph, vm, em)
    }

    /// The included vertices that no included edge comes into, with no edges.
    pub fn roots(&self) -> (r: Subgraph<'g, V, E>)
        ensures
            r.graph() == self.graph(),
            r.vmask() == roots_mask(self.graph().rows(), self.vmask(), self.emask()),
            r.emask() == empty_edge_mask(self.graph().rows()),
    {
        proof {
            use_type_invariant(self);
            use_type_invariant(self.graph);
        }
        let ghost rows = self.graph().rows();
        let ghost em = self.emask();
        let n = self.vertex_mask.len();
        let mut incoming: Vec<bool> = Vec::new();
        while incoming.len() < n
            invariant
                incoming.len() <= n,
                forall|v: int| 0 <= v < incoming.len() ==> !incoming@[v],
            decreases n - incoming.len(),
        {
            incoming.push(false);
        }
        let mut i: usize = 0;
        while i < n
            invariant
                rows == self.graph().rows(),
                em == self.emask(),
                masks_wf(rows, self.vmask(), em),
                super::rows_wf(rows, n as int),
                n == rows.len(),
                0 <= i <= n,
                incoming.len() == n,
                forall|v: int| 0 <= v < n ==> incoming@[v] == exists|a: int, c: int|
                    0 <= a < i && 0 <= c < rows[a].len() && #[trigger] em[a][c] && rows[a][c].0 == v,
            decreases n - i,
        {
            let edges = &self.graph.edges[i];
            let mask = &self.edge_mask[i];
            assert(rows[i as int] == edges@);
            assert(em[i as int] == mask@);
            let mut k: usize = 0;
            while k < edges.len()
                invariant
                    rows == self.graph().rows(),
                    em == self.emask(),
                    masks_wf(rows, self.vmask(), em),
                    super::rows_wf(rows, n as int),
                    n == rows.len(),
                    i < n,
                    rows[i as int] == edges@,
                    em[i as int] == mask@,
                    0 <= k <= edges.len(),
                    incoming.len() == n,
                    forall|v: int| 0 <= v < n ==> incoming@[v] == exists|a: int, c: int|
                        0 <= a <= i && 0 <= c < rows[a].len() && (a < i || c < k) && #[trigger] em[a][c] && rows[a][c].0 == v,
                decreases edges.len() - k,
            {
                if mask[k] {
                    let to = edges[k].0;
                    incoming.set(to, true);
                }
                proof {
                    assert forall|v: int| 0 <= v < n implies incoming@[v] == exists|a: int, c: int|
                        0 <= a <= i && 0 <= c < rows[a].len() && (a < i || c < k + 1) && #[trigger] em[a][c] && rows[a][c].0 == v by {
                        if em[i as int][k as int] && rows[i as int][k as int].0 == v {
                            assert(em[i as int][k as int]);
                        }
                    }
                }
                k = k + 1;
            }
            i = i + 1;
        }
        let mut vm: Vec<bool> = Vec::new();
        let mut none: Vec<Vec<bool>> = Vec::new();
        let mut v: usize = 0;
        while v < n
            invariant
                rows == self.graph().rows(),
                em == self.emask(),
                masks_wf(rows, self.vmask(), em),
                n == rows.len(),
                0 <= v <= n,
                incoming.len() == n,
                forall|w: int| 0 <= w < n ==> incoming@[w] == has_incoming(rows, em, w),
                vm@ == roots_mask(rows, self.vmask(), em).take(v as int),
                none@.len() == v,
                forall|a: int| 0 <= a < v ==> (#[trigger] none@[a])@ == empty_edge_mask(rows)[a],
            decreases n - v,
        {
            let len = self.graph.edges[v].len();
            assert(rows[v as int].len() == len);
            let mut row: Vec<bool> = Vec::new();
            while row.len() < len
                invariant
                    row.len() <= len,
                    forall|k: int| 0 <= k < row.len() ==> !row@[k],
                decreases len - row.len(),
            {
                row.push(false);
            }
            assert(row@ == empty_edge_mask(rows)[v as int]);
            let keep = self.vertex_mask[v] && !incoming[v];
            assert(vm@.push(keep) == roots_mask(rows, self.vmask(), em).take(v + 1));
            vm.push(keep);
            none.push(row);
            v = v + 1;
        }
        proof {
            assert(vm@ == roots_mask(rows, self.vmask(), em));
            assert(none@.map_values(|m: Vec<bool>| m@) =~= empty_edge_mask(rows));
        }
        Self::with_masks(self.graph, vm, none)
    }

    /// Grows the view to a fixpoint: every vertex reachable from an included
    /// vertex along edges of the graph whose label `predicate` accepts is
    /// included, and so is every such edge out of an included vertex.
    ///
    /// The result is stated for every `keep` that says what `predicate`
    /// answers on each label.
    pub fn expand_via<P: Fn(&E) -> bool>(&self, predicate: P) -> (r: Subgraph<'g, V, E>)
        requires
            callable(predicate),
        ensures
            r.graph() == self.graph(),
            forall|keep: spec_fn(E) -> bool| #[trigger] computes(predicate, keep) ==> {
                &&& r.vmask() == closure_vertex_mask(self.graph().rows(), self.vmask(), keep)
                &&& r.emask() == closure_edge_mask(self.graph().rows(), self.vmask(), self.emask(), keep)
            },
    {
        proof {
            use_type_invariant(self);
            use_type_invariant(self.graph);
        }
        let ghost rows = self.graph().rows();
        let ghost vm0 = self.vmask();
        let ghost em0 = self.emask();
        let ghost yes = |e: E| call_ensures(predicate, (&e,), true);
        let ghost open = |e: E| !call_ensures(predicate, (&e,), false);
        let n = self.vertex_mask.len();
        let mut marked: Vec<bool> = Vec::new();
        let mut stack: Vec<usize> = Vec::new();
        let mut i: usize = 0;
        while i < n
            invariant
                rows == self.graph().rows(),
                vm0 == self.vmask(),
                masks_wf(rows, vm0, em0),
                n == rows.len(),
                0 <= i <= n,
                marked@ == vm0.take(i as int),
                forall|s: int| 0 <= s < stack.len() ==> (stack@[s] as int) < i && marked@[stack@[s] as int],
                forall|w: int| 0 <= w < i && marked@[w] ==> stack@.contains(w as usize),
            decreases n - i,
        {
            let inc = self.vertex_mask[i];
            assert(marked@.push(inc) == vm0.take(i + 1));
            marked.push(inc);
            let ghost before = stack@;
            if inc {
                stack.push(i);
                assert(stack@[stack.len() - 1] == i);
            }
            proof {
                assert forall|w: int| 0 <= w < i + 1 && marked@[w] implies stack@.contains(w as usize) by {
                    if w == i {
                        assert(stack@[stack.len() - 1] == i);
                    } else {
                        assert(before.contains(w as usize));
                        let s0 = choose|s0: int| 0 <= s0 < before.len() && before[s0] == w as usize;
                        assert(stack@[s0] == w as usize);
                    }
                }
            }
            i = i + 1;
        }
        assert(marked@ == vm0);
        proof {
            lemma_count_true_bound(marked@);
            assert forall|w: int| 0 <= w < n && marked@[w] implies reachable(rows, vm0, yes, w) by {
                assert(reached(rows, vm0, yes, 0)[w]);
            }
        }
        while stack.len() > 0
            invariant
                callable(predicate),
                yes == (|e: E| call_ensures(predicate, (&e,), true)),
                open == (|e: E| !call_ensures(predicate, (&e,), false)),
                rows == self.graph().rows(),
                vm0 == self.vmask(),
                masks_wf(rows, vm0, em0),
                super::rows_wf(rows, n as int),
                n == rows.len(),
                marked.len() == n,
                count_true(marked@) <= n,
                forall|s: int| 0 <= s < stack.len() ==> (stack@[s] as int) < n && marked@[stack@[s] as int],
                forall|w: int| 0 <= w < n && vm0[w] ==> marked@[w],
                forall|w: int| 0 <= w < n && marked@[w] ==> reachable(rows, vm0, yes, w),
                forall|w: int| 0 <= w < n && marked@[w] ==> stack@.contains(w as usize) || closed_at(rows, open, marked@, w),
            decreases n - count_true(marked@), stack.len(),
        {
            let ghost full = stack@;
            let from = stack.pop().unwrap();
            let ghost popped = stack@;
            proof {
                assert forall|w: int| 0 <= w < n && marked@[w] && w != from implies stack@.contains(w as usize) || closed_at(rows, open, marked@, w) by {
                    if full.contains(w as usize) {
                        let s0 = choose|s0: int| 0 <= s0 < full.len() && full[s0] == w as usize;
                        assert(s0 < popped.len());
                        assert(popped[s0] == full[s0]);
                    }
                }
            }
            let ghost count0 = count_true(marked@);
            let edges = &self.graph.edges[from];
            assert(rows[from as int] == edges@);
            let mut e: usize = 0;
            while e < edges.len()
                invariant
                    callable(predicate),
                    yes == (|e: E| call_ensures(predicate, (&e,), true)),
                    open == (|e: E| !call_ensures(predicate, (&e,), false)),
                    rows == self.graph().rows(),
                    masks_wf(rows, vm0, em0),
                    super::rows_wf(rows, n as int),
                    n == rows.len(),
                    from < n,
                    rows[from as int] == edges@,
                    0 <= e <= edges.len(),
                    marked.len() == n,
                    marked@[from as int],
                    count_true(marked@) <= n,
                    count_true(marked@) >= count0,
                    stack.len() == popped.len() + (count_true(marked@) - count0),
                    forall|s: int| 0 <= s < popped.len() ==> stack@[s] == popped[s],
                    forall|s: int| 0 <= s < stack.len() ==> (stack@[s] as int) < n && marked@[stack@[s] as int],
                    forall|w: int| 0 <= w < n && vm0[w] ==> marked@[w],
                    forall|w: int| 0 <= w < n && marked@[w] ==> reachable(rows, vm0, yes, w),
                    forall|w: int| 0 <= w < n && marked@[w] && w != from ==> stack@.contains(w as usize) || closed_at(rows, open, marked@, w),
                    forall|c: int| 0 <= c < e && open(#[trigger] rows[from as int][c].1) ==> marked@[rows[from as int][c].0 as int],
                decreases edges.len() - e,
            {
                let (to, label) = edges[e];
                let follow = predicate(&label);
                proof {
                    assert(rows[from as int][e as int] == (to, label));
                    assert(call_ensures(predicate, (&label,), follow));
                    if follow {
                        assert(call_ensures(predicate, (&label,), true));
                        assert(yes(label));
                    } else {
                        assert(call_ensures(predicate, (&label,), false));
                        assert(!open(label));
                    }
                }
                if follow && !marked[to] {
                    proof {
                        lemma_count_true_set(marked@, to as int);
                        lemma_count_true_bound(marked@.update(to as int, true));
                    }
                    let ghost before = marked@;
                    let ghost before_stack = stack@;
                    marked.set(to, true);
                    stack.push(to);
                    proof {
                        assert(stack@[stack.len() - 1] == to);
                        assert forall|w: int| 0 <= w < n && marked@[w] && w != from implies stack@.contains(w as usize) || closed_at(rows, open, marked@, w) by {
                            if w == to {
                                assert(stack@[stack.len() - 1] == to);
                            } else if before[w] {
                                if closed_at(rows, open, before, w) {
                                } else {
                                    let s0 = choose|s0: int| 0 <= s0 < before_stack.len() && before_stack[s0] == w as usize;
                                    assert(stack@[s0] == w as usize);
                                }
                            }
                        }
                        assert forall|w: int| 0 <= w < n && marked@[w] implies reachable(rows, vm0, yes, w) by {
                            if w == to {
                                let d0 = choose|d0: nat| #[trigger] reached(rows, vm0, yes, d0)[from as int];
                                assert(rows[from as int][e as int].0 == to);
                                lemma_reaches_step(rows, vm0, yes, from as int, e as int, d0);
                            }
                        }
                    }
                }
                e = e + 1;
            }
            proof {
                assert(closed_at(rows, open, marked@, from as int));
                assert forall|w: int| 0 <= w < n && marked@[w] implies stack@.contains(w as usize) || closed_at(rows, open, marked@, w) by {
                }
            }
        }
        proof {
            assert forall|w: int| 0 <= w < n && marked@[w] implies closed_at(rows, open, marked@, w) by {
                assert(!stack@.contains(w as usize));
            }
        }
        let mut em: Vec<Vec<bool>> = Vec::new();
        let mut i: usize = 0;
        while i < n
            invariant
                callable(predicate),
                yes == (|e: E| call_ensures(predicate, (&e,), true)),
                open == (|e: E| !call_ensures(predicate, (&e,), false)),
                rows == self.graph().rows(),
                masks_wf(rows, vm0, em0),
                em0 == self.emask(),
                super::rows_wf(rows, n as int),
                n == rows.len(),
                marked.len() == n,
                0 <= i <= n,
                em@.len() == i,
                forall|a: int| 0 <= a < i ==> (#[trigger] em@[a])@.len() == rows[a].len(),
                forall|a: int, x: int| 0 <= a < i && 0 <= x < rows[a].len() && em0[a][x] ==> #[trigger] em@[a]@[x],
                forall|a: int, x: int|
                    0 <= a < i && 0 <= x < rows[a].len() && !em0[a][x] && marked@[a] && marked@[rows[a][x].0 as int]
                        ==> call_ensures(predicate, (&rows[a][x].1,), #[trigger] em@[a]@[x]),
                forall|a: int, x: int|
                    0 <= a < i && 0 <= x < rows[a].len() && !em0[a][x] && !(marked@[a] && marked@[rows[a][x].0 as int])
                        ==> !#[trigger] em@[a]@[x],
            decreases n - i,
        {
            let edges = &self.graph.edges[i];
            let mask = &self.edge_mask[i];
            assert(rows[i as int] == edges@);
            assert(em0[i as int] == mask@);
            let mut row: Vec<bool> = Vec::new();
            let mut c: usize = 0;
            while c < edges.len()
                invariant
                    callable(predicate),
                    rows == self.graph().rows(),
                    masks_wf(rows, vm0, em0),
                    super::rows_wf(rows, n as int),
                    n == rows.len(),
                    i < n,
                    marked.len() == n,
                    rows[i as int] == edges@,
                    em0[i as int] == mask@,
                    mask.len() == edges.len(),
                    0 <= c <= edges.len(),
                    row@.len() == c,
                    forall|x: int| 0 <= x < c && em0[i as int][x] ==> row@[x],
                    forall|x: int|
                        0 <= x < c && !em0[i as int][x] && marked@[i as int] && marked@[rows[i as int][x].0 as int]
                            ==> call_ensures(predicate, (&rows[i as int][x].1,), row@[x]),
                    forall|x: int|
                        0 <= x < c && !em0[i as int][x] && !(marked@[i as int] && marked@[rows[i as int][x].0 as int])
                            ==> !row@[x],
                decreases edges.len() - c,
            {
                let (to, label) = edges[c];
                let taken = mask[c] || (marked[i] && marked[to] && predicate(&label));
                row.push(taken);
                c = c + 1;
            }
            em.push(row);
            proof {
                assert forall|a: int, x: int| 0 <= a < i + 1 && 0 <= x < rows[a].len() && em0[a][x] implies #[trigger] em@[a]@[x] by {
                    if a == i {
                        assert(em@[a]@ == row@);
                    }
                }
                assert forall|a: int, x: int|
                    0 <= a < i + 1 && 0 <= x < rows[a].len() && !em0[a][x] && marked@[a] && marked@[rows[a][x].0 as int]
                        implies call_ensures(predicate, (&rows[a][x].1,), #[trigger] em@[a]@[x]) by {
                    if a == i {
                        assert(em@[a]@ == row@);
                    }
                }
                assert forall|a: int, x: int|
                    0 <= a < i + 1 && 0 <= x < rows[a].len() && !em0[a][x] && !(marked@[a] && marked@[rows[a][x].0 as int])
                        implies !#[trigger] em@[a]@[x] by {
                    if a == i {
                        assert(em@[a]@ == row@);
                    }
                }
            }
            i = i + 1;
        }
        let ghost emm = em@.map_values(|m: Vec<bool>| m@);
        proof {
            assert forall|a: int| 0 <= a < n implies (#[trigger] emm[a]).len() == rows[a].len() by {
                assert(emm[a] == em@[a]@);
            }
            assert forall|a: int, x: int| 0 <= a < n && 0 <= x < rows[a].len() && #[trigger] emm[a][x] implies marked@[a] && marked@[rows[a][x].0 as int] by {
                assert(emm[a] == em@[a]@);
            }
            assert forall|keep: spec_fn(E) -> bool| #[trigger] computes(predicate, keep) implies {
                &&& marked@ == closure_vertex_mask(rows, vm0, keep)
                &&& emm == closure_edge_mask(rows, vm0, em0, keep)
            } by {
                assert forall|e: E| #[trigger] yes(e) implies keep(e) by {
                    assert(call_ensures(predicate, (&e,), true));
                }
                assert forall|w: int| 0 <= w < n && marked@[w] implies closed_at(rows, keep, marked@, w) by {
                    assert forall|x: int| 0 <= x < rows[w].len() && keep(#[trigger] rows[w][x].1) implies marked@[rows[w][x].0 as int] by {
                        assert(closed_at(rows, open, marked@, w));
                        if call_ensures(predicate, (&rows[w][x].1,), false) {
                        }
                    }
                }
                assert forall|w: int| 0 <= w < n implies marked@[w] == reachable(rows, vm0, keep, w) by {
                    if reachable(rows, vm0, keep, w) {
                        let d = choose|d: nat| #[trigger] reached(rows, vm0, keep, d)[w];
                        lemma_closed_marks_reachable(rows, vm0, keep, marked@, w, d);
                    }
                    if marked@[w] {
                        let d = choose|d: nat| #[trigger] reached(rows, vm0, yes, d)[w];
                        lemma_reached_mono(rows, vm0, yes, keep, w, d);
                    }
                }
                assert(marked@ =~= closure_vertex_mask(rows, vm0, keep));
                let target = closure_edge_mask(rows, vm0, em0, keep);
                assert forall|a: int| 0 <= a < n implies #[trigger] emm[a] == target[a] by {
                    assert forall|x: int| 0 <= x < rows[a].len() implies emm[a][x] == target[a][x] by {
                        assert(emm[a] == em@[a]@);
                        assert(marked@[a] == reachable(rows, vm0, keep, a));
                        if !em0[a][x] && marked@[a] && !marked@[rows[a][x].0 as int] {
                            assert(closed_at(rows, keep, marked@, a));
                        }
                    }
                    assert(emm[a] =~= target[a]);
                }
                assert(emm =~= target);
            }
        }
        Self::with_masks(self.graph, marked, em)
    }

    /// `expand_via` along every edge.
    pub fn expand(&self) -> (r: Subgraph<'g, V, E>)
        ensures
            r.graph() == self.graph(),
            r.vmask() == closure_vertex_mask(self.graph().rows(), self.vmask(), all_labels::<E>()),
            r.emask() == closure_edge_mask(self.graph().rows(), self.vmask(), self.emask(), all_labels::<E>()),
    {
        let every = |e: &E| -> (b: bool)
            ensures
                b,
        { true };
        let r = self.expand_via(every);
        assert(computes(every, all_labels::<E>()));
        r
    }
}

} // verus!
