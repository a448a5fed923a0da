//! A graph described as adjacency lists of labelled edges, with queries for
//! the children and the descendants of a set of vertices.
use vstd::prelude::*;
use vstd::std_specs::cmp::PartialEqSpecImpl;
use crate::graph::{
    adjacency_model, all_labels, callable, closure_vertex_mask, edge_mask_within, edges_answered, vertices_answered,
    full_edge_mask, full_vertex_mask, holds, keys_of, last_label, listed_edges, listing, mentions,
    owned_adjacency, selected, Graph as IndexedGraph, Subgraph,
};
use crate::vertex::{Edge as Label, Vertex};

verus! {

/// An edge to `to`, labelled `color`.
#[derive(Clone, Debug, PartialEq, Eq)]
pub struct Edge<V, C> {
    pub to: V,
    pub color: C,
}

impl<V, C> Edge<V, C> {
    pub fn new(to: V, color: C) -> (r: Self)
        ensures
            r.to == to,
            r.color == color,
    {
        Edge { to, color }
    }
}

/// The model of an adjacency description made of `Edge`s.
pub open spec fn edges_model<V: Vertex, C>(graph: Seq<(V, Vec<Edge<V, C>>)>) -> Seq<(V::V, Seq<(V::V, C)>)> {
    graph.map_values(|p: (V, Vec<Edge<V, C>>)| (p.0@, p.1@.map_values(|e: Edge<V, C>| (e.to@, e.color))))
}

/// Which vertices some edge from a marked vertex comes into.
pub open spec fn children_mask<C>(rows: Seq<Seq<(usize, C)>>, qm: Seq<bool>) -> Seq<bool> {
    Seq::new(
        qm.len(),
        |j: int| exists|i: int, k: int| 0 <= i < rows.len() && 0 <= k < rows[i].len() && qm[i] && #[trigger] rows[i][k].0 == j,
    )
}

/// Which vertices are in the query.
pub open spec fn query_mask<K>(keys: Seq<K>, query: Seq<K>) -> Seq<bool> {
    Seq::new(keys.len(), |i: int| query.contains(keys[i]))
}

/// A graph stored as one ascending adjacency list per vertex.
#[derive(Debug)]
pub struct Graph<V: Vertex, C: Label> {
    edges: IndexedGraph<V, C>,
}

impl<V: Vertex, C: Label> Graph<V, C> {
    /// The graph stored.
    pub closed spec fn stored(&self) -> IndexedGraph<V, C> {
        self.edges
    }

    /// Builds a graph from adjacency lists: the vertices are every source and
    /// every destination, each once; between two vertices there is at most one
    /// edge, with the color listed last for that pair.
    pub fn new(graph: Vec<(V, Vec<Edge<V, C>>)>) -> (r: Self)
        ensures
            forall|x: V::V| #[trigger] r.stored().keys().contains(x) <==> mentions(edges_model(graph@), x),
            forall|i: int, j: int|
                0 <= i < r.stored().keys().len() && 0 <= j < r.stored().keys().len() ==> #[trigger] r.stored().label(i, j)
                    == last_label(listed_edges(edges_model(graph@)), r.stored().keys()[i], r.stored().keys()[j]),
    {
        let mut pairs: Vec<(V, Vec<(V, C)>)> = Vec::new();
        let mut e: usize = 0;
        while e < graph.len()
            invariant
                0 <= e <= graph.len(),
                pairs.len() == e,
                adjacency_model(pairs@) == edges_model(graph@).take(e as int),
            decreases graph.len() - e,
        {
            let (v, es) = (&graph[e].0, &graph[e].1);
            let mut row: Vec<(V, C)> = Vec::new();
            let mut k: usize = 0;
            while k < es.len()
                invariant
                    0 <= k <= es.len(),
                    row.len() == k,
                    row@.map_values(|d: (V, C)| (d.0@, d.1)) == es@.map_values(|x: Edge<V, C>| (x.to@, x.color)).take(k as int),
                decreases es.len() - k,
            {
                let d = (es[k].to.duplicate(), es[k].color);
                let ghost before = row@;
                row.push(d);
                proof {
                    let got = row@.map_values(|d: (V, C)| (d.0@, d.1));
                    let want = es@.map_values(|x: Edge<V, C>| (x.to@, x.color)).take(k + 1);
                    assert forall|c: int| 0 <= c < k + 1 implies got[c] == want[c] by {
                        if c < k {
                            assert(row@[c] == before[c]);
                            assert(before.map_values(|d: (V, C)| (d.0@, d.1))[c] == got[c]);
                        } else {
                            assert(row@[c] == d);
                        }
                    }
                    assert(got =~= want);
                }
                k = k + 1;
            }
            assert(es@.map_values(|x: Edge<V, C>| (x.to@, x.color)).take(es.len() as int) == es@.map_values(|x: Edge<V, C>| (x.to@, x.color)));
            let entry = (v.duplicate(), row);
            let ghost before = pairs@;
            let ghost entry_model = (entry.0@, entry.1@.map_values(|d: (V, C)| (d.0@, d.1)));
            pairs.push(entry);
            proof {
                let got = adjacency_model(pairs@);
                let want = edges_model(graph@).take(e + 1);
                assert(entry_model == edges_model(graph@)[e as int]);
                assert forall|c: int| 0 <= c < e + 1 implies got[c] == want[c] by {
                    if c < e {
                        assert(pairs@[c] == before[c]);
                        assert(adjacency_model(before)[c] == got[c]);
                    } else {
                        assert(got[c] == entry_model);
                    }
                }
                assert(got =~= want);
            }
            e = e + 1;
        }
        assert(edges_model(graph@).take(graph.len() as int) == edges_model(graph@));
        Graph { edges: IndexedGraph::from_adjacency(pairs) }
    }

    /// Every vertex, ascending.
    pub fn vertices(&self) -> (r: Vec<&V>)
        ensures
            r@.map_values(|v: &V| v@) == self.stored()@.map_values(|p: (V::V, Seq<(V::V, C)>)| p.0),
    {
        self.edges.vertices()
    }

    /// Which vertices are in `vertices`, by index.
    fn query(&self, vertices: &Vec<V>) -> (r: Vec<bool>)
        ensures
            r@ == query_mask(self.stored().keys(), keys_of(vertices@)),
    {
        let all = self.edges.vertices();
        let ghost keys = self.stored().keys();
        proof {
            use_type_invariant(&self.edges);
            self.edges.lemma_vertices_are_keys();
        }
        let mut r: Vec<bool> = Vec::new();
        let mut i: usize = 0;
        while i < all.len()
            invariant
                all@.map_values(|v: &V| v@) == keys,
                0 <= i <= all.len(),
                r@ == query_mask(keys, keys_of(vertices@)).take(i as int),
            decreases all.len() - i,
        {
            let inside = holds(vertices, all[i]);
            assert(all@.map_values(|v: &V| v@)[i as int] == all@[i as int]@);
            assert(r@.push(inside) =~= query_mask(keys, keys_of(vertices@)).take(i + 1));
            r.push(inside);
            i = i + 1;
        }
        assert(query_mask(keys, keys_of(vertices@)).take(all.len() as int) =~= query_mask(keys, keys_of(vertices@)));
        r
    }

    /// The vertices that an edge from a vertex of `vertices` comes into, ascending.
    pub fn children(&self, vertices: &Vec<V>) -> (r: Vec<&V>)
        ensures
            r@.map_values(|v: &V| v@) == selected(
                self.stored().keys(),
                children_mask(self.stored().rows(), query_mask(self.stored().keys(), keys_of(vertices@))),
                self.stored().keys().len() as int,
            ),
    {
        let qm = self.query(vertices);
        let cm = self.edges.children_of(&qm);
        self.edges.pick(&cm)
    }

    /// The vertices reached from `vertices` by one edge or more, ascending.
    pub fn descendants(&self, vertices: &Vec<V>) -> (r: Vec<&V>)
        ensures
            r@.map_values(|v: &V| v@) == selected(
                self.stored().keys(),
                closure_vertex_mask(
                    self.stored().rows(),
                    children_mask(self.stored().rows(), query_mask(self.stored().keys(), keys_of(vertices@))),
                    all_labels::<C>(),
                ),
                self.stored().keys().len() as int,
            ),
    {
        let qm = self.query(vertices);
        let cm = self.edges.children_of(&qm);
        let reached = Subgraph::of_vertices(&self.edges, cm).expand();
        reached.vertices_as_selected()
    }

    /// The same vertices, with every edge turned around.
    pub fn reverse(&self) -> (r: Graph<V, C>)
        ensures
            r.stored().wf(),
            r.stored().is_reverse_of(self.stored()),
    {
        Graph { edges: self.edges.reverse() }
    }

    /// The vertices that `vertex_predicate` accepts, with the edges between
    /// them whose color `edge_predicate` accepts. Each kept vertex and edge
    /// is one on which the predicate answered `true`.
    pub fn filter<VP: Fn(&V) -> bool, EP: Fn(&C) -> bool>(&self, vertex_predicate: VP, edge_predicate: EP) -> (r: Graph<V, C>)
        requires
            callable(vertex_predicate),
            callable(edge_predicate),
        ensures
            exists|vm: Seq<bool>, em: Seq<Seq<bool>>|
                #![trigger vertices_answered(self.stored(), full_vertex_mask(self.stored().keys().len() as int), vertex_predicate, vm), edges_answered(self.stored().rows(), edge_mask_within(self.stored().rows(), vm, full_edge_mask(self.stored().rows())), edge_predicate, em)]
                {
                    &&& vertices_answered(self.stored(), full_vertex_mask(self.stored().keys().len() as int), vertex_predicate, vm)
                    &&& edges_answered(
                        self.stored().rows(),
                        edge_mask_within(self.stored().rows(), vm, full_edge_mask(self.stored().rows())),
                        edge_predicate,
                        em,
                    )
                    &&& holds_kept(r.stored(), self.stored(), vm, em)
                },
    {
        let kept_vertices = self.edges.filter_vertices(vertex_predicate);
        let view = kept_vertices.filter_edges(edge_predicate);
        let adjacency = owned_adjacency(&view.iter());
        let r = Graph { edges: IndexedGraph::from_adjacency(adjacency) };
        proof {
            let g = self.stored();
            assert(vertices_answered(g, full_vertex_mask(g.keys().len() as int), vertex_predicate, kept_vertices.vmask()));
            assert(edges_answered(
                g.rows(),
                edge_mask_within(g.rows(), kept_vertices.vmask(), full_edge_mask(g.rows())),
                edge_predicate,
                view.emask(),
            ));
            assert(holds_kept(r.stored(), g, kept_vertices.vmask(), view.emask()));
        }
        r
    }
}

/// `r` holds exactly what the masks `vm` and `em` keep of `g`: the vertices
/// listed, and the edges listed with their labels.
pub open spec fn holds_kept<V: Vertex, C: Label>(r: IndexedGraph<V, C>, g: IndexedGraph<V, C>, vm: Seq<bool>, em: Seq<Seq<bool>>) -> bool {
    let kept = listing(g.keys(), g.rows(), vm, em, g.keys().len() as int);
    &&& forall|x: V::V| #[trigger] r.keys().contains(x) <==> mentions(kept, x)
    &&& forall|i: int, j: int|
        0 <= i < r.keys().len() && 0 <= j < r.keys().len() ==> #[trigger] r.label(i, j) == last_label(
            listed_edges(kept),
            r.keys()[i],
            r.keys()[j],
        )
}

impl<V: Vertex, C: Label> PartialEq for Graph<V, C> {
    fn eq(&self, other: &Self) -> (r: bool) {
        self.edges == other.edges
    }
}

impl<V: Vertex, C: Label> PartialEqSpecImpl for Graph<V, C> {
    open spec fn obeys_eq_spec() -> bool {
        true
    }

    /// Equal when both hold the same vertices and the same labelled edges.
    open spec fn eq_spec(&self, other: &Self) -> bool {
        self.stored()@ == other.stored()@
    }
}

} // verus!
