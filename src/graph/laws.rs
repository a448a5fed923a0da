//! Laws that relate the operations on graphs and views.
use vstd::prelude::*;
use crate::vertex::{Edge, Vertex};
use super::{
    computes, edge_mask_within, edges_answered, full_edge_mask, full_vertex_mask, label_in,
    lemma_rows_equal_by_labels, listing, masks_wf, row_ascending, vertices_answered, Graph,
};

verus! {

/// Reversing a graph twice gives back the graph: same vertices, same edges,
/// same labels, in the same order.
pub proof fn lemma_reverse_twice<V: Vertex, E: Edge>(g: Graph<V, E>, once: Graph<V, E>, twice: Graph<V, E>)
    requires
        g.wf(),
        once.wf(),
        twice.wf(),
        once.is_reverse_of(g),
        twice.is_reverse_of(once),
    ensures
        twice@ == g@,
        twice.keys() == g.keys(),
        twice.rows() == g.rows(),
{
    let n = g.keys().len() as int;
    assert forall|i: int| 0 <= i < n implies #[trigger] twice.rows()[i] == g.rows()[i] by {
        let a = twice.rows()[i];
        let b = g.rows()[i];
        assert(row_ascending(a));
        assert(row_ascending(b));
        assert forall|j: int| label_in(a, j) == label_in(b, j) by {
            if 0 <= j < n {
                assert(twice.label(i, j) == once.label(j, i));
                assert(once.label(j, i) == g.label(i, j));
            } else {
                assert forall|k: int| 0 <= k < a.len() implies a[k].0 != j by {}
                assert forall|k: int| 0 <= k < b.len() implies b[k].0 != j by {}
            }
        }
        lemma_rows_equal_by_labels(a, b);
    }
    assert(twice.rows() =~= g.rows());
}

/// Filtering with predicates that answer `true` on everything changes
/// nothing: `filter_vertices(|_| true).filter_edges(|_| true)` lists exactly
/// what the graph lists. `vm` and `em` are the masks the two filters give.
pub proof fn lemma_filters_keeping_all<V: Vertex, E: Edge, P: Fn(&V) -> bool, Q: Fn(&E) -> bool>(
    g: Graph<V, E>,
    p: P,
    q: Q,
    vm: Seq<bool>,
    em: Seq<Seq<bool>>,
)
    requires
        g.wf(),
        forall|a: &V, b: bool| #[trigger] call_ensures(p, (a,), b) ==> b,
        forall|a: &E, b: bool| #[trigger] call_ensures(q, (a,), b) ==> b,
        vertices_answered(g, full_vertex_mask(g.keys().len() as int), p, vm),
        edges_answered(g.rows(), edge_mask_within(g.rows(), vm, full_edge_mask(g.rows())), q, em),
    ensures
        vm == full_vertex_mask(g.keys().len() as int),
        em == full_edge_mask(g.rows()),
        listing(g.keys(), g.rows(), vm, em, g.keys().len() as int) == g@,
{
    let n = g.keys().len() as int;
    let rows = g.rows();
    assert forall|i: int| 0 <= i < n implies vm[i] by {
        assert(call_ensures(p, (&g.vertex(i),), vm[i]));
    }
    assert(vm =~= full_vertex_mask(n));
    let em1 = edge_mask_within(rows, vm, full_edge_mask(rows));
    assert forall|i: int| 0 <= i < n implies #[trigger] em[i] == full_edge_mask(rows)[i] by {
        assert forall|k: int| 0 <= k < rows[i].len() implies em[i][k] by {
            assert(em1[i][k]);
            assert(call_ensures(q, (&rows[i][k].1,), em[i][k]));
        }
        assert(em[i] =~= full_edge_mask(rows)[i]);
    }
    assert(em =~= full_edge_mask(rows));
}

/// Filtering vertices and filtering edges commute, for predicates that
/// give each value one answer (`kv` and `ke`): vertices first then edges
/// gives the same masks, hence the same view, as edges first then vertices.
pub proof fn lemma_filters_commute<V: Vertex, E: Edge, P: Fn(&V) -> bool, Q: Fn(&E) -> bool>(
    g: Graph<V, E>,
    vm: Seq<bool>,
    em: Seq<Seq<bool>>,
    p: P,
    q: Q,
    kv: spec_fn(V) -> bool,
    ke: spec_fn(E) -> bool,
    vertices_first: Seq<bool>,
    edges_after: Seq<Seq<bool>>,
    edges_first: Seq<Seq<bool>>,
    vertices_after: Seq<bool>,
)
    requires
        g.wf(),
        masks_wf(g.rows(), vm, em),
        computes(p, kv),
        computes(q, ke),
        vertices_answered(g, vm, p, vertices_first),
        edges_answered(g.rows(), edge_mask_within(g.rows(), vertices_first, em), q, edges_after),
        edges_answered(g.rows(), em, q, edges_first),
        vertices_answered(g, vm, p, vertices_after),
    ensures
        vertices_first == vertices_after,
        edges_after == edge_mask_within(g.rows(), vertices_after, edges_first),
{
    let rows = g.rows();
    let n = rows.len() as int;
    assert forall|i: int| 0 <= i < n implies vertices_first[i] == vertices_after[i] by {
        if vm[i] {
            assert(call_ensures(p, (&g.vertex(i),), vertices_first[i]));
            assert(call_ensures(p, (&g.vertex(i),), vertices_after[i]));
        }
    }
    assert(vertices_first =~= vertices_after);
    let a = edge_mask_within(rows, vertices_first, em);
    let b = edge_mask_within(rows, vertices_after, edges_first);
    assert forall|i: int| 0 <= i < n implies #[trigger] edges_after[i] == b[i] by {
        assert forall|k: int| 0 <= k < rows[i].len() implies edges_after[i][k] == b[i][k] by {
            if a[i][k] {
                assert(call_ensures(q, (&rows[i][k].1,), edges_after[i][k]));
                assert(call_ensures(q, (&rows[i][k].1,), edges_first[i][k]));
            }
        }
        assert(edges_after[i] =~= b[i]);
    }
    assert(edges_after =~= b);
}

/// Filtering vertices twice, with `first` and then `second`, is filtering
/// once with a predicate `both` that accepts what both accept.
pub proof fn lemma_vertex_filters_combine<V: Vertex, E: Edge, P1: Fn(&V) -> bool, P2: Fn(&V) -> bool, P3: Fn(&V) -> bool>(
    g: Graph<V, E>,
    vm: Seq<bool>,
    em: Seq<Seq<bool>>,
    first: P1,
    second: P2,
    both: P3,
    k1: spec_fn(V) -> bool,
    k2: spec_fn(V) -> bool,
    v1: Seq<bool>,
    v2: Seq<bool>,
    v3: Seq<bool>,
)
    requires
        g.wf(),
        masks_wf(g.rows(), vm, em),
        computes(first, k1),
        computes(second, k2),
        computes(both, |v: V| k1(v) && k2(v)),
        vertices_answered(g, vm, first, v1),
        vertices_answered(g, v1, second, v2),
        vertices_answered(g, vm, both, v3),
    ensures
        v2 == v3,
        edge_mask_within(g.rows(), v2, edge_mask_within(g.rows(), v1, em)) == edge_mask_within(g.rows(), v3, em),
{
    let rows = g.rows();
    let n = rows.len() as int;
    assert forall|i: int| 0 <= i < n implies v2[i] == v3[i] by {
        if vm[i] {
            assert(call_ensures(first, (&g.vertex(i),), v1[i]));
            assert(call_ensures(both, (&g.vertex(i),), v3[i]));
            if v1[i] {
                assert(call_ensures(second, (&g.vertex(i),), v2[i]));
            }
        }
    }
    assert(v2 =~= v3);
    let a = edge_mask_within(rows, v2, edge_mask_within(rows, v1, em));
    let b = edge_mask_within(rows, v3, em);
    assert forall|i: int| 0 <= i < n implies #[trigger] a[i] == b[i] by {
        assert forall|k: int| 0 <= k < rows[i].len() implies a[i][k] == b[i][k] by {
            let to = rows[i][k].0 as int;
            assert(0 <= to < n);
            if v2[to] {
                assert(v1[to]);
            }
            if v2[i] {
                assert(v1[i]);
            }
        }
        assert(a[i] =~= b[i]);
    }
    assert(a =~= b);
}

} // verus!
