//! Lazy, restartable walks over a view: vertex by vertex, edge by edge.
use vstd::prelude::*;
use crate::vertex::{Edge, Vertex};
use super::{listing, masks_wf, row_listing, selected, Graph, Subgraph};

verus! {

/// The keys that `m` includes from position `i` on, in order.
pub open spec fn selected_from<K>(keys: Seq<K>, m: Seq<bool>, i: int) -> Seq<K>
    decreases keys.len() - i,
{
    if i < 0 || i >= keys.len() {
        Seq::empty()
    } else if m[i] {
        seq![keys[i]] + selected_from(keys, m, i + 1)
    } else {
        selected_from(keys, m, i + 1)
    }
}

/// The included edges of a row from position `k` on, as (destination, label).
pub open spec fn row_from<K, E>(keys: Seq<K>, row: Seq<(usize, E)>, em: Seq<bool>, k: int) -> Seq<(K, E)>
    decreases row.len() - k,
{
    if k < 0 || k >= row.len() {
        Seq::empty()
    } else if em[k] {
        seq![(keys[row[k].0 as int], row[k].1)] + row_from(keys, row, em, k + 1)
    } else {
        row_from(keys, row, em, k + 1)
    }
}

/// The included vertices from position `i` on, each with its included edges.
pub open spec fn listing_from<K, E>(keys: Seq<K>, rows: Seq<Seq<(usize, E)>>, vm: Seq<bool>, em: Seq<Seq<bool>>, i: int) -> Seq<(K, Seq<(K, E)>)>
    decreases keys.len() - i,
{
    if i < 0 || i >= keys.len() {
        Seq::empty()
    } else if vm[i] {
        seq![(keys[i], row_from(keys, rows[i], em[i], 0))] + listing_from(keys, rows, vm, em, i + 1)
    } else {
        listing_from(keys, rows, vm, em, i + 1)
    }
}

proof fn lemma_selected_split<K>(keys: Seq<K>, m: Seq<bool>, i: int)
    requires
        0 <= i <= keys.len(),
        m.len() == keys.len(),
    ensures
        selected(keys, m, keys.len() as int) == selected(keys, m, i) + selected_from(keys, m, i),
    decreases keys.len() - i,
{
    if i < keys.len() {
        lemma_selected_split(keys, m, i + 1);
        if m[i] {
            assert(selected(keys, m, i + 1) + selected_from(keys, m, i + 1) =~= selected(keys, m, i) + selected_from(keys, m, i));
        }
    } else {
        assert(selected(keys, m, i) + selected_from(keys, m, i) =~= selected(keys, m, i));
    }
}

proof fn lemma_row_split<K, E>(keys: Seq<K>, row: Seq<(usize, E)>, em: Seq<bool>, k: int)
    requires
        0 <= k <= row.len(),
        em.len() == row.len(),
    ensures
        row_listing(keys, row, em, row.len() as int) == row_listing(keys, row, em, k) + row_from(keys, row, em, k),
    decreases row.len() - k,
{
    if k < row.len() {
        lemma_row_split(keys, row, em, k + 1);
        if em[k] {
            assert(row_listing(keys, row, em, k + 1) + row_from(keys, row, em, k + 1) =~= row_listing(keys, row, em, k) + row_from(keys, row, em, k));
        }
    } else {
        assert(row_listing(keys, row, em, k) + row_from(keys, row, em, k) =~= row_listing(keys, row, em, k));
    }
}

proof fn lemma_listing_split<K, E>(keys: Seq<K>, rows: Seq<Seq<(usize, E)>>, vm: Seq<bool>, em: Seq<Seq<bool>>, i: int)
    requires
        0 <= i <= keys.len(),
        masks_wf(rows, vm, em),
        rows.len() == keys.len(),
    ensures
        listing(keys, rows, vm, em, keys.len() as int) == listing(keys, rows, vm, em, i) + listing_from(keys, rows, vm, em, i),
    decreases keys.len() - i,
{
    if i < keys.len() {
        lemma_listing_split(keys, rows, vm, em, i + 1);
        if vm[i] {
            lemma_row_split(keys, rows[i], em[i], 0);
            assert(row_listing(keys, rows[i], em[i], 0) =~= Seq::<(K, E)>::empty());
            assert(row_listing(keys, rows[i], em[i], rows[i].len() as int) =~= row_from(keys, rows[i], em[i], 0));
            assert(listing(keys, rows, vm, em, i + 1) + listing_from(keys, rows, vm, em, i + 1) =~= listing(keys, rows, vm, em, i) + listing_from(keys, rows, vm, em, i));
        }
    } else {
        assert(listing(keys, rows, vm, em, i) + listing_from(keys, rows, vm, em, i) =~= listing(keys, rows, vm, em, i));
    }
}

/// The edges out of one vertex of a view, one at a time, ascending by destination.
pub struct Edges<'g, 's, V: Vertex, E: Edge> {
    graph: &'g Graph<V, E>,
    vertex: usize,
    mask: &'s Vec<bool>,
    next: usize,
}

impl<'g, 's, V: Vertex, E: Edge> Edges<'g, 's, V, E> {
    /// The edges still to come.
    pub closed spec fn rest(&self) -> Seq<(V::V, E)> {
        row_from(self.graph.keys(), self.graph.rows()[self.vertex as int], self.mask@, self.next as int)
    }

    /// The cursor is in step with its graph.
    pub closed spec fn valid(&self) -> bool {
        &&& self.graph.wf()
        &&& (self.vertex as int) < self.graph.keys().len()
        &&& self.mask@.len() == self.graph.rows()[self.vertex as int].len()
        &&& self.next <= self.mask@.len()
    }

    /// The next edge, as (destination, label).
    pub fn next(&mut self) -> (r: Option<(&'g V, E)>)
        requires
            old(self).valid(),
        ensures
            final(self).valid(),
            match r {
                Some(e) => old(self).rest() == seq![(e.0@, e.1)] + final(self).rest(),
                None => old(self).rest().len() == 0 && final(self).rest() == old(self).rest(),
            },
    {
        let graph: &'g Graph<V, E> = self.graph;
        let row = &graph.edges[self.vertex];
        assert(graph.rows()[self.vertex as int] == row@);
        while self.next < self.mask.len() && !self.mask[self.next]
            invariant
                self.valid(),
                self.graph == graph,
                graph.rows()[self.vertex as int] == row@,
                self.rest() == old(self).rest(),
                self.vertex == old(self).vertex,
                self.mask == old(self).mask,
            decreases self.mask.len() - self.next,
        {
            self.next = self.next + 1;
        }
        if self.next < self.mask.len() {
            let (to, label) = row[self.next];
            let v: &'g V = &graph.vertices[to];
            assert(graph.keys()[to as int] == v@);
            self.next = self.next + 1;
            Some((v, label))
        } else {
            None
        }
    }
}

/// The included vertices of a view, one at a time, ascending.
pub struct Vertices<'g, 's, V: Vertex, E: Edge> {
    graph: &'g Graph<V, E>,
    mask: &'s Vec<bool>,
    next: usize,
}

impl<'g, 's, V: Vertex, E: Edge> Vertices<'g, 's, V, E> {
    /// The vertices still to come.
    pub closed spec fn rest(&self) -> Seq<V::V> {
        selected_from(self.graph.keys(), self.mask@, self.next as int)
    }

    /// The cursor is in step with its graph.
    pub closed spec fn valid(&self) -> bool {
        &&& self.graph.wf()
        &&& self.mask@.len() == self.graph.keys().len()
        &&& self.next <= self.mask@.len()
    }

    /// The next vertex.
    pub fn next(&mut self) -> (r: Option<&'g V>)
        requires
            old(self).valid(),
        ensures
            final(self).valid(),
            match r {
                Some(v) => old(self).rest() == seq![v@] + final(self).rest(),
                None => old(self).rest().len() == 0 && final(self).rest() == old(self).rest(),
            },
    {
        let graph: &'g Graph<V, E> = self.graph;
        while self.next < self.mask.len() && !self.mask[self.next]
            invariant
                self.valid(),
                self.graph == graph,
                self.rest() == old(self).rest(),
                self.mask == old(self).mask,
            decreases self.mask.len() - self.next,
        {
            self.next = self.next + 1;
        }
        if self.next < self.mask.len() {
            let v: &'g V = &graph.vertices[self.next];
            self.next = self.next + 1;
            Some(v)
        } else {
            None
        }
    }
}

/// The included vertices of a view, each with a walk over its included edges.
pub struct GraphIter<'g, 's, V: Vertex, E: Edge> {
    graph: &'g Graph<V, E>,
    vertex_mask: &'s Vec<bool>,
    edge_mask: &'s Vec<Vec<bool>>,
    next: usize,
}

impl<'g, 's, V: Vertex, E: Edge> GraphIter<'g, 's, V, E> {
    /// The vertices still to come, each with its included edges.
    pub closed spec fn rest(&self) -> Seq<(V::V, Seq<(V::V, E)>)> {
        listing_from(
            self.graph.keys(),
            self.graph.rows(),
            self.vertex_mask@,
            self.edge_mask@.map_values(|m: Vec<bool>| m@),
            self.next as int,
        )
    }

    /// The cursor is in step with its graph.
    pub closed spec fn valid(&self) -> bool {
        &&& self.graph.wf()
        &&& masks_wf(self.graph.rows(), self.vertex_mask@, self.edge_mask@.map_values(|m: Vec<bool>| m@))
        &&& self.next <= self.vertex_mask@.len()
    }

    /// The next vertex, with a walk over its edges.
    pub fn next(&mut self) -> (r: Option<(&'g V, Edges<'g, 's, V, E>)>)
        requires
            old(self).valid(),
        ensures
            final(self).valid(),
            match r {
                Some(p) => p.1.valid() && old(self).rest() == seq![(p.0@, p.1.rest())] + final(self).rest(),
                None => old(self).rest().len() == 0 && final(self).rest() == old(self).rest(),
            },
    {
        let graph: &'g Graph<V, E> = self.graph;
        while self.next < self.vertex_mask.len() && !self.vertex_mask[self.next]
            invariant
                self.valid(),
                self.graph == graph,
                self.rest() == old(self).rest(),
                self.vertex_mask == old(self).vertex_mask,
                self.edge_mask == old(self).edge_mask,
            decreases self.vertex_mask.len() - self.next,
        {
            self.next = self.next + 1;
        }
        if self.next < self.vertex_mask.len() {
            let i = self.next;
            let v: &'g V = &graph.vertices[i];
            let mask: &'s Vec<bool> = &self.edge_mask[i];
            assert(self.edge_mask@.map_values(|m: Vec<bool>| m@)[i as int] == mask@);
            let edges = Edges { graph, vertex: i, mask, next: 0 };
            self.next = self.next + 1;
            Some((v, edges))
        } else {
            None
        }
    }
}

impl<'g, V: Vertex, E: Edge> Subgraph<'g, V, E> {
    /// A walk over the included vertices, each with its included edges, in
    /// the order of `iter`.
    pub fn walk<'s>(&'s self) -> (r: GraphIter<'g, 's, V, E>)
        ensures
            r.valid(),
            r.rest() == self@,
    {
        proof {
            use_type_invariant(self);
            use_type_invariant(self.graph);
            lemma_listing_split(self.graph().keys(), self.graph().rows(), self.vmask(), self.emask(), 0);
            assert(listing(self.graph().keys(), self.graph().rows(), self.vmask(), self.emask(), 0) =~= Seq::<(V::V, Seq<(V::V, E)>)>::empty());
            assert(Seq::<(V::V, Seq<(V::V, E)>)>::empty() + listing_from(self.graph().keys(), self.graph().rows(), self.vmask(), self.emask(), 0) =~= listing_from(self.graph().keys(), self.graph().rows(), self.vmask(), self.emask(), 0));
        }
        GraphIter { graph: self.graph, vertex_mask: &self.vertex_mask, edge_mask: &self.edge_mask, next: 0 }
    }

    /// A walk over the included vertices, ascending.
    pub fn walk_vertices<'s>(&'s self) -> (r: Vertices<'g, 's, V, E>)
        ensures
            r.valid(),
            r.rest() == self@.map_values(|p: (V::V, Seq<(V::V, E)>)| p.0),
    {
        proof {
            use_type_invariant(self);
            use_type_invariant(self.graph);
            let keys = self.graph().keys();
            super::lemma_listing_vertices(keys, self.graph().rows(), self.vmask(), self.emask(), keys.len() as int);
            lemma_selected_split(keys, self.vmask(), 0);
            assert(selected(keys, self.vmask(), 0) + selected_from(keys, self.vmask(), 0) =~= selected_from(keys, self.vmask(), 0));
        }
        Vertices { graph: self.graph, mask: &self.vertex_mask, next: 0 }
    }

    /// A walk over the included edges out of vertex `i`, ascending by destination.
    pub fn walk_edges<'s>(&'s self, i: usize) -> (r: Edges<'g, 's, V, E>)
        requires
            (i as int) < self.graph().keys().len(),
        ensures
            r.valid(),
            r.rest() == row_from(self.graph().keys(), self.graph().rows()[i as int], self.emask()[i as int], 0),
    {
        proof {
            use_type_invariant(self);
            use_type_invariant(self.graph);
        }
        assert(self.emask()[i as int] == self.edge_mask@[i as int]@);
        Edges { graph: self.graph, vertex: i, mask: &self.edge_mask[i], next: 0 }
    }
}

} // verus!
