//! Ordered listings of graphs and views, and equality by listing.
use vstd::prelude::*;
use vstd::std_specs::cmp::PartialEqSpecImpl;
use core::cmp::Ordering;
use crate::vertex::{Edge, Vertex};
use super::{full_edge_mask, full_vertex_mask, listing, listing_models, masks_wf, row_listing, Graph, Subgraph};

verus! {

impl<V: Vertex, E: Edge> View for Graph<V, E> {
    type V = Seq<(V::V, Seq<(V::V, E)>)>;

    /// Every vertex in ascending order, each with its edges in ascending order.
    open spec fn view(&self) -> Seq<(V::V, Seq<(V::V, E)>)> {
        listing(
            self.keys(),
            self.rows(),
            full_vertex_mask(self.keys().len() as int),
            full_edge_mask(self.rows()),
            self.keys().len() as int,
        )
    }
}

impl<'g, V: Vertex, E: Edge> View for Subgraph<'g, V, E> {
    type V = Seq<(V::V, Seq<(V::V, E)>)>;

    /// The included vertices in ascending order, each with its included edges in ascending order.
    open spec fn view(&self) -> Seq<(V::V, Seq<(V::V, E)>)> {
        listing(
            self.graph().keys(),
            self.graph().rows(),
            self.vmask(),
            self.emask(),
            self.graph().keys().len() as int,
        )
    }
}

impl<'g, V: Vertex, E: Edge> Subgraph<'g, V, E> {
    /// The included vertices in ascending order, each with its included edges
    /// in ascending order of destination.
    pub fn iter(&self) -> (r: Vec<(&'g V, Vec<(&'g V, E)>)>)
        ensures
            listing_models(r@) == self@,
    {
        proof {
            use_type_invariant(self);
            use_type_invariant(self.graph);
        }
        let graph: &'g Graph<V, E> = self.graph;
        let ghost keys = graph.keys();
        let ghost rows = graph.rows();
        let ghost vm = self.vmask();
        let ghost em = self.emask();
        let n = self.vertex_mask.len();
        let mut out: Vec<(&'g V, Vec<(&'g V, E)>)> = Vec::new();
        let mut i: usize = 0;
        while i < n
            invariant
                keys == graph.keys(),
                rows == graph.rows(),
                *graph == self.graph(),
                vm == self.vmask(),
                em == self.emask(),
                masks_wf(rows, vm, em),
                graph.wf(),
                n == rows.len(),
                n == keys.len(),
                0 <= i <= n,
                listing_models(out@) == listing(keys, rows, vm, em, i as int),
            decreases n - i,
        {
            if self.vertex_mask[i] {
                let edges = &graph.edges[i];
                let mask = &self.edge_mask[i];
                assert(rows[i as int] == edges@);
                assert(em[i as int] == mask@);
                let mut row: Vec<(&'g V, E)> = Vec::new();
                let mut k: usize = 0;
                while k < edges.len()
                    invariant
                        keys == graph.keys(),
                        rows == graph.rows(),
                        masks_wf(rows, vm, em),
                        graph.wf(),
                        n == rows.len(),
                        n == keys.len(),
                        i < n,
                        rows[i as int] == edges@,
                        em[i as int] == mask@,
                        0 <= k <= edges.len(),
                        row@.map_values(|q: (&V, E)| (q.0@, q.1)) == row_listing(keys, edges@, mask@, k as int),
                    decreases edges.len() - k,
                {
                    if mask[k] {
                        let (to, label) = edges[k];
                        let target: &'g V = &graph.vertices[to];
                        assert(keys[to as int] == target@);
                        let ghost before = row@;
                        row.push((target, label));
                        assert(row@.map_values(|q: (&V, E)| (q.0@, q.1)) == before.map_values(|q: (&V, E)| (q.0@, q.1)).push((target@, label)));
                    }
                    k = k + 1;
                }
                let v: &'g V = &graph.vertices[i];
                assert(keys[i as int] == v@);
                let ghost before = out@;
                out.push((v, row));
                assert(listing_models(out@) == listing_models(before).push((v@, row@.map_values(|q: (&V, E)| (q.0@, q.1)))));
            }
            i = i + 1;
        }
        out
    }

    /// The included vertices in ascending order.
    pub fn vertices(&self) -> (r: Vec<&'g V>)
        ensures
            r@.map_values(|v: &V| v@) == self@.map_values(|p: (V::V, Seq<(V::V, E)>)| p.0),
    {
        let all = self.iter();
        let mut out: Vec<&'g V> = Vec::new();
        let mut i: usize = 0;
        while i < all.len()
            invariant
                listing_models(all@) == self@,
                0 <= i <= all.len(),
                out@.map_values(|v: &V| v@) == listing_models(all@).take(i as int).map_values(|p: (V::V, Seq<(V::V, E)>)| p.0),
            decreases all.len() - i,
        {
            let ghost before = out@;
            out.push(all[i].0);
            assert(listing_models(all@).take(i + 1) == listing_models(all@).take(i as int).push(listing_models(all@)[i as int]));
            assert(out@.map_values(|v: &V| v@) == before.map_values(|v: &V| v@).push(all@[i as int].0@));
            i = i + 1;
        }
        assert(listing_models(all@).take(all.len() as int) == listing_models(all@));
        out
    }
}

impl<V: Vertex, E: Edge> Graph<V, E> {
    /// Every vertex in ascending order, each with its edges in ascending order
    /// of destination.
    pub fn iter<'g>(&'g self) -> (r: Vec<(&'g V, Vec<(&'g V, E)>)>)
        ensures
            listing_models(r@) == self@,
    {
        Subgraph::whole(self).iter()
    }

    /// Every vertex in ascending order.
    pub fn vertices<'g>(&'g self) -> (r: Vec<&'g V>)
        ensures
            r@.map_values(|v: &V| v@) == self@.map_values(|p: (V::V, Seq<(V::V, E)>)| p.0),
    {
        Subgraph::whole(self).vertices()
    }
}

/// Whether two listings hold the same vertices and edges in the same order.
fn same_listing<'a, 'b, V: Vertex, E: Edge>(
    a: &Vec<(&'a V, Vec<(&'a V, E)>)>,
    b: &Vec<(&'b V, Vec<(&'b V, E)>)>,
) -> (r: bool)
    ensures
        r == (listing_models(a@) == listing_models(b@)),
{
    let ghost ma = listing_models(a@);
    let ghost mb = listing_models(b@);
    if a.len() != b.len() {
        assert(ma.len() != mb.len());
        return false;
    }
    let mut i: usize = 0;
    while i < a.len()
        invariant
            ma == listing_models(a@),
            mb == listing_models(b@),
            a.len() == b.len(),
            0 <= i <= a.len(),
            forall|c: int| 0 <= c < i ==> ma[c] == mb[c],
        decreases a.len() - i,
    {
        let (va, ra) = (a[i].0, &a[i].1);
        let (vb, rb) = (b[i].0, &b[i].1);
        let ghost ea = ra@.map_values(|q: (&V, E)| (q.0@, q.1));
        let ghost eb = rb@.map_values(|q: (&V, E)| (q.0@, q.1));
        assert(ma[i as int] == (va@, ea));
        assert(mb[i as int] == (vb@, eb));
        match va.compare(vb) {
            Ordering::Equal => {},
            _ => {
                assert(ma[i as int] != mb[i as int]);
                return false;
            },
        }
        if ra.len() != rb.len() {
            assert(ea.len() != eb.len());
            assert(ma[i as int] != mb[i as int]);
            return false;
        }
        let mut k: usize = 0;
        while k < ra.len()
            invariant
                ea == ra@.map_values(|q: (&V, E)| (q.0@, q.1)),
                eb == rb@.map_values(|q: (&V, E)| (q.0@, q.1)),
                ma == listing_models(a@),
                mb == listing_models(b@),
                a.len() == b.len(),
                i < a.len(),
                ma[i as int].1 == ea,
                mb[i as int].1 == eb,
                ra.len() == rb.len(),
                0 <= k <= ra.len(),
                forall|c: int| 0 <= c < k ==> ea[c] == eb[c],
            decreases ra.len() - k,
        {
            let same_to = match ra[k].0.compare(rb[k].0) {
                Ordering::Equal => true,
                _ => false,
            };
            if !same_to || !ra[k].1.same(&rb[k].1) {
                assert(ea[k as int] != eb[k as int]);
                assert(ma[i as int] != mb[i as int]);
                return false;
            }
            assert(ea[k as int] == eb[k as int]);
            k = k + 1;
        }
        assert(ea =~= eb);
        i = i + 1;
    }
    assert(ma =~= mb);
    true
}

impl<V: Vertex, E: Edge> PartialEq for Graph<V, E> {
    fn eq(&self, other: &Self) -> (r: bool) {
        same_listing(&self.iter(), &other.iter())
    }
}

impl<V: Vertex, E: Edge> PartialEqSpecImpl for Graph<V, E> {
    open spec fn obeys_eq_spec() -> bool {
        true
    }

    /// Equal when both list the same vertices and edges in the same order.
    open spec fn eq_spec(&self, other: &Self) -> bool {
        self@ == other@
    }
}

impl<'g, V: Vertex, E: Edge> PartialEq for Subgraph<'g, V, E> {
    fn eq(&self, other: &Self) -> (r: bool) {
        same_listing(&self.iter(), &other.iter())
    }
}

impl<'g, V: Vertex, E: Edge> PartialEqSpecImpl for Subgraph<'g, V, E> {
    open spec fn obeys_eq_spec() -> bool {
        true
    }

    open spec fn eq_spec(&self, other: &Self) -> bool {
        self@ == other@
    }
}

impl<'g, V: Vertex, E: Edge> PartialEq<Subgraph<'g, V, E>> for Graph<V, E> {
    fn eq(&self, other: &Subgraph<'g, V, E>) -> (r: bool) {
        same_listing(&self.iter(), &other.iter())
    }
}

impl<'g, V: Vertex, E: Edge> PartialEqSpecImpl<Subgraph<'g, V, E>> for Graph<V, E> {
    open spec fn obeys_eq_spec() -> bool {
        true
    }

    open spec fn eq_spec(&self, other: &Subgraph<'g, V, E>) -> bool {
        self@ == other@
    }
}

impl<'g, V: Vertex, E: Edge> PartialEq<Graph<V, E>> for Subgraph<'g, V, E> {
    fn eq(&self, other: &Graph<V, E>) -> (r: bool) {
        same_listing(&self.iter(), &other.iter())
    }
}

impl<'g, V: Vertex, E: Edge> PartialEqSpecImpl<Graph<V, E>> for Subgraph<'g, V, E> {
    open spec fn obeys_eq_spec() -> bool {
        true
    }

    open spec fn eq_spec(&self, other: &Graph<V, E>) -> bool {
        self@ == other@
    }
}

} // verus!
