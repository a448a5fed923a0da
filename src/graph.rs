//! An immutable graph stored by vertex index, and the masked views over it.
use vstd::prelude::*;
use core::cmp::Ordering;
use crate::vertex::{Edge, Vertex};

mod cursor;
mod laws;
mod listing;
mod subgraph;

pub use laws::{lemma_filters_commute, lemma_filters_keeping_all, lemma_reverse_twice, lemma_vertex_filters_combine};
pub use cursor::{listing_from, row_from, selected_from, Edges, GraphIter, Vertices};
pub use subgraph::Subgraph;

verus! {

/// The models of a sequence of vertices.
pub open spec fn keys_of<V: View>(vs: Seq<V>) -> Seq<V::V> {
    vs.map_values(|v: V| v@)
}

pub proof fn lemma_keys_of_push<V: View>(vs: Seq<V>, v: V)
    ensures
        keys_of(vs.push(v)) == keys_of(vs).push(v@),
{
    assert(keys_of(vs.push(v)) =~= keys_of(vs).push(v@));
}

/// Vertices are strictly ascending in the order of `V`.
pub open spec fn strictly_sorted<V: Vertex>(keys: Seq<V::V>) -> bool {
    forall|i: int, j: int| 0 <= i < j < keys.len() ==> V::precedes(keys[i], keys[j])
}

/// Each row holds edges to valid indices, strictly ascending by destination.
pub open spec fn rows_wf<E>(rows: Seq<Seq<(usize, E)>>, n: int) -> bool {
    &&& rows.len() == n
    &&& forall|i: int, k: int| 0 <= i < n && 0 <= k < rows[i].len() ==> (rows[i][k].0 as int) < n
    &&& forall|i: int, k: int, l: int|
        0 <= i < n && 0 <= k < l < rows[i].len() ==> rows[i][k].0 < rows[i][l].0
}

/// The label of the edge to `j` in a row, if the row has one.
pub open spec fn label_in<E>(row: Seq<(usize, E)>, j: int) -> Option<E> {
    if exists|k: int| 0 <= k < row.len() && row[k].0 == j {
        Some(row[choose|k: int| 0 <= k < row.len() && row[k].0 == j].1)
    } else {
        None
    }
}

/// The model of an adjacency description: each source with its (destination, label) list.
pub open spec fn adjacency_model<V: Vertex, E>(adjacency: Seq<(V, Vec<(V, E)>)>) -> Seq<(V::V, Seq<(V::V, E)>)> {
    adjacency.map_values(|p: (V, Vec<(V, E)>)| (p.0@, p.1@.map_values(|d: (V, E)| (d.0@, d.1))))
}

/// Every (source, destination, label) of an adjacency description, in order.
pub open spec fn listed_edges<K, E>(m: Seq<(K, Seq<(K, E)>)>) -> Seq<(K, K, E)>
    decreases m.len(),
{
    if m.len() == 0 {
        Seq::empty()
    } else {
        listed_edges(m.drop_last()) + m.last().1.map_values(|d: (K, E)| (m.last().0, d.0, d.1))
    }
}

/// Whether `x` stands in an adjacency description, as a source or as a destination.
pub open spec fn mentions<K, E>(m: Seq<(K, Seq<(K, E)>)>, x: K) -> bool {
    exists|e: int|
        0 <= e < m.len() && (m[e].0 == x || exists|k: int| 0 <= k < m[e].1.len() && (#[trigger] m[e].1[k]).0 == x)
}

/// The label of the last listed edge from `a` to `b`: a later edge overrides an earlier one.
pub open spec fn last_label<K, E>(ts: Seq<(K, K, E)>, a: K, b: K) -> Option<E>
    decreases ts.len(),
{
    if ts.len() == 0 {
        None
    } else if ts.last().0 == a && ts.last().1 == b {
        Some(ts.last().2)
    } else {
        last_label(ts.drop_last(), a, b)
    }
}

proof fn lemma_sorted_injective<V: Vertex>(keys: Seq<V::V>, a: int, b: int)
    requires
        strictly_sorted::<V>(keys),
        0 <= a < keys.len(),
        0 <= b < keys.len(),
        keys[a] == keys[b],
    ensures
        a == b,
{
    V::lemma_precedes_is_strict_total_order(keys[a], keys[b], keys[a]);
}

/// Index triples turned into triples of vertex models.
pub open spec fn keyed<K, E>(keys: Seq<K>, tri: Seq<(usize, usize, E)>) -> Seq<(K, K, E)> {
    tri.map_values(|t: (usize, usize, E)| (keys[t.0 as int], keys[t.1 as int], t.2))
}

proof fn lemma_last_label_by_index<V: Vertex, E>(
    tri: Seq<(usize, usize, E)>,
    keys: Seq<V::V>,
    i: usize,
    j: usize,
)
    requires
        strictly_sorted::<V>(keys),
        i < keys.len(),
        j < keys.len(),
        forall|t: int| 0 <= t < tri.len() ==> (tri[t].0 as int) < keys.len() && (tri[t].1 as int) < keys.len(),
    ensures
        last_label(tri, i, j) == last_label(keyed(keys, tri), keys[i as int], keys[j as int]),
    decreases tri.len(),
{
    if tri.len() > 0 {
        let last = tri.last();
        let kt = keyed(keys, tri);
        assert(kt.drop_last() == keyed(keys, tri.drop_last()));
        assert(kt.last() == (keys[last.0 as int], keys[last.1 as int], last.2));
        if keys[last.0 as int] == keys[i as int] && keys[last.1 as int] == keys[j as int] {
            lemma_sorted_injective::<V>(keys, last.0 as int, i as int);
            lemma_sorted_injective::<V>(keys, last.1 as int, j as int);
        }
        lemma_last_label_by_index::<V, E>(tri.drop_last(), keys, i, j);
    }
}

/// Inserts `v` into a strictly ascending vector unless an equal vertex is there.
pub(crate) fn insert_sorted<V: Vertex>(vs: &mut Vec<V>, v: &V)
    requires
        strictly_sorted::<V>(keys_of(old(vs)@)),
    ensures
        strictly_sorted::<V>(keys_of(final(vs)@)),
        forall|x: V::V| #[trigger] keys_of(final(vs)@).contains(x) <==> (keys_of(old(vs)@).contains(x) || x == v@),
{
    let ghost before = keys_of(vs@);
    match search(vs, v) {
        Ok(i) => {
            assert(before[i as int] == v@);
        },
        Err(p) => {
            let w = v.duplicate();
            vs.insert(p, w);
            let ghost after = keys_of(vs@);
            assert(after == before.insert(p as int, v@));
            proof {
                assert forall|a: int, b: int| 0 <= a < b < after.len() implies V::precedes(
                    after[a],
                    after[b],
                ) by {
                    if b < p {
                    } else if b == p {
                        assert(before[a] == vs@[a]@);
                    } else if a == p {
                        assert(after[b] == before[b - 1]);
                    } else if a < p {
                        assert(before[a] == after[a]);
                        assert(after[b] == before[b - 1]);
                    } else {
                        assert(after[a] == before[a - 1]);
                        assert(after[b] == before[b - 1]);
                    }
                }
                assert forall|x: V::V| after.contains(x) <==> (before.contains(x) || x == v@) by {
                    if after.contains(x) {
                        let q = choose|q: int| 0 <= q < after.len() && after[q] == x;
                        if q < p {
                            assert(before[q] == x);
                        } else if q > p {
                            assert(before[q - 1] == x);
                        }
                    }
                    if before.contains(x) {
                        let q = choose|q: int| 0 <= q < before.len() && before[q] == x;
                        if q < p {
                            assert(after[q] == x);
                        } else {
                            assert(after[q + 1] == x);
                        }
                    }
                    if x == v@ {
                        assert(after[p as int] == x);
                    }
                }
            }
        },
    }
}

/// Destinations strictly ascending along a row.
pub open spec fn row_ascending<E>(row: Seq<(usize, E)>) -> bool {
    forall|k: int, l: int| 0 <= k < l < row.len() ==> row[k].0 < row[l].0
}

proof fn lemma_label_in_at<E>(row: Seq<(usize, E)>, k: int)
    requires
        row_ascending(row),
        0 <= k < row.len(),
    ensures
        label_in(row, row[k].0 as int) == Some(row[k].1),
{
    let j = row[k].0 as int;
    let c = choose|c: int| 0 <= c < row.len() && row[c].0 == j;
    assert(c == k) by {
        if c < k {
            assert(row[c].0 < row[k].0);
        } else if c > k {
            assert(row[k].0 < row[c].0);
        }
    }
}

/// The position of `v` in a strictly ascending vector that holds it.
fn index_of<V: Vertex>(vs: &Vec<V>, v: &V) -> (r: usize)
    requires
        strictly_sorted::<V>(keys_of(vs@)),
        keys_of(vs@).contains(v@),
    ensures
        r < vs.len(),
        vs@[r as int]@ == v@,
{
    match search(vs, v) {
        Ok(i) => i,
        Err(p) => {
            proof {
                let q = choose|q: int| 0 <= q < keys_of(vs@).len() && keys_of(vs@)[q] == v@;
                assert(vs@[q]@ == v@);
                V::lemma_precedes_is_strict_total_order(v@, v@, v@);
            }
            0
        },
    }
}

/// The sorted, duplicate-free vertices that an adjacency description mentions.
fn collect_vertices<V: Vertex, E: Edge>(adjacency: &Vec<(V, Vec<(V, E)>)>) -> (vs: Vec<V>)
    ensures
        strictly_sorted::<V>(keys_of(vs@)),
        forall|x: V::V| #[trigger] keys_of(vs@).contains(x) <==> mentions(adjacency_model(adjacency@), x),
{
    let ghost m = adjacency_model(adjacency@);
    let mut vs: Vec<V> = Vec::new();
    let mut e: usize = 0;
    while e < adjacency.len()
        invariant
            m == adjacency_model(adjacency@),
            0 <= e <= adjacency.len(),
            strictly_sorted::<V>(keys_of(vs@)),
            forall|x: V::V| #[trigger] keys_of(vs@).contains(x) <==> mentions(m.take(e as int), x),
        decreases adjacency.len() - e,
    {
        let entry = &adjacency[e];
        let ghost me = m[e as int];
        assert(me.0 == entry.0@);
        assert(me.1 == entry.1@.map_values(|d: (V, E)| (d.0@, d.1)));
        insert_sorted(&mut vs, &entry.0);
        let mut k: usize = 0;
        while k < entry.1.len()
            invariant
                m == adjacency_model(adjacency@),
                0 <= e < adjacency.len(),
                me == m[e as int],
                me.0 == entry.0@,
                me.1 == entry.1@.map_values(|d: (V, E)| (d.0@, d.1)),
                0 <= k <= entry.1.len(),
                strictly_sorted::<V>(keys_of(vs@)),
                forall|x: V::V| #[trigger] keys_of(vs@).contains(x) <==> (mentions(m.take(e as int), x)
                    || x == me.0 || exists|q: int| 0 <= q < k && (#[trigger] me.1[q]).0 == x),
            decreases entry.1.len() - k,
        {
            insert_sorted(&mut vs, &entry.1[k].0);
            proof {
                assert(me.1[k as int].0 == entry.1@[k as int].0@);
                assert forall|x: V::V| #[trigger] keys_of(vs@).contains(x) <==> (mentions(m.take(e as int), x)
                    || x == me.0 || exists|q: int| 0 <= q < k + 1 && (#[trigger] me.1[q]).0 == x) by {
                    if x == me.1[k as int].0 {
                        assert(me.1[k as int].0 == x);
                    }
                    if exists|q: int| 0 <= q < k + 1 && (#[trigger] me.1[q]).0 == x {
                        let q = choose|q: int| 0 <= q < k + 1 && (#[trigger] me.1[q]).0 == x;
                        if q < k {
                            assert(exists|q: int| 0 <= q < k && (#[trigger] me.1[q]).0 == x);
                        }
                    }
                }
            }
            k = k + 1;
        }
        proof {
            let pre = m.take(e as int);
            let post = m.take(e + 1);
            assert(post[e as int] == me);
            assert forall|x: V::V| #[trigger] keys_of(vs@).contains(x) <==> mentions(post, x) by {
                if mentions(post, x) {
                    let w = choose|w: int| 0 <= w < post.len() && (post[w].0 == x || exists|q: int|
                        0 <= q < post[w].1.len() && (#[trigger] post[w].1[q]).0 == x);
                    if w < e {
                        assert(pre[w] == post[w]);
                        assert(mentions(pre, x));
                    }
                }
                if mentions(pre, x) {
                    let w = choose|w: int| 0 <= w < pre.len() && (pre[w].0 == x || exists|q: int|
                        0 <= q < pre[w].1.len() && (#[trigger] pre[w].1[q]).0 == x);
                    assert(pre[w] == post[w]);
                }
                if exists|q: int| 0 <= q < k && (#[trigger] me.1[q]).0 == x {
                    let q = choose|q: int| 0 <= q < k && (#[trigger] me.1[q]).0 == x;
                    assert(post[e as int].1[q].0 == x);
                }
            }
        }
        e = e + 1;
    }
    assert(m.take(adjacency.len() as int) == m);
    vs
}

/// Every listed edge as (source index, destination index, label), in order.
fn index_edges<V: Vertex, E: Edge>(adjacency: &Vec<(V, Vec<(V, E)>)>, vs: &Vec<V>) -> (tri: Vec<(usize, usize, E)>)
    requires
        strictly_sorted::<V>(keys_of(vs@)),
        forall|x: V::V| #[trigger] keys_of(vs@).contains(x) <==> mentions(adjacency_model(adjacency@), x),
    ensures
        forall|t: int| 0 <= t < tri.len() ==> (tri@[t].0 as int) < vs.len() && (tri@[t].1 as int) < vs.len(),
        keyed(keys_of(vs@), tri@) == listed_edges(adjacency_model(adjacency@)),
{
    let ghost keys = keys_of(vs@);
    let ghost m = adjacency_model(adjacency@);
    let mut tri: Vec<(usize, usize, E)> = Vec::new();
    let mut e: usize = 0;
    while e < adjacency.len()
        invariant
            keys == keys_of(vs@),
            strictly_sorted::<V>(keys),
            m == adjacency_model(adjacency@),
            forall|x: V::V| #[trigger] keys.contains(x) <==> mentions(m, x),
            0 <= e <= adjacency.len(),
            forall|t: int| 0 <= t < tri.len() ==> (tri@[t].0 as int) < vs.len() && (tri@[t].1 as int) < vs.len(),
            keyed(keys, tri@) == listed_edges(m.take(e as int)),
        decreases adjacency.len() - e,
    {
        let entry = &adjacency[e];
        let ghost me = m[e as int];
        assert(me.0 == entry.0@);
        assert(me.1 == entry.1@.map_values(|d: (V, E)| (d.0@, d.1)));
        assert(mentions(m, entry.0@));
        let from = index_of(vs, &entry.0);
        let ghost start = tri@;
        let ghost tail = me.1.map_values(|d: (V::V, E)| (me.0, d.0, d.1));
        let mut k: usize = 0;
        while k < entry.1.len()
            invariant
                keys == keys_of(vs@),
                strictly_sorted::<V>(keys),
                m == adjacency_model(adjacency@),
                forall|x: V::V| #[trigger] keys.contains(x) <==> mentions(m, x),
                0 <= e < adjacency.len(),
                me == m[e as int],
                me.0 == entry.0@,
                me.1 == entry.1@.map_values(|d: (V, E)| (d.0@, d.1)),
                from < vs.len(),
                keys[from as int] == entry.0@,
                tail == me.1.map_values(|d: (V::V, E)| (me.0, d.0, d.1)),
                0 <= k <= entry.1.len(),
                forall|t: int| 0 <= t < tri.len() ==> (tri@[t].0 as int) < vs.len() && (tri@[t].1 as int) < vs.len(),
                keyed(keys, tri@) == keyed(keys, start) + tail.take(k as int),
            decreases entry.1.len() - k,
        {
            let d = &entry.1[k];
            assert(mentions(m, d.0@)) by {
                assert(me.1[k as int].0 == d.0@);
            }
            let to = index_of(vs, &d.0);
            let ghost prev = tri@;
            tri.push((from, to, d.1));
            proof {
                assert(keyed(keys, tri@) =~= keyed(keys, prev).push((keys[from as int], keys[to as int], d.1)));
                assert(tail.take(k + 1) =~= tail.take(k as int).push(tail[k as int]));
                assert(keys[to as int] == d.0@);
                assert(me.1[k as int] == (d.0@, d.1));
                assert(tail[k as int] == (entry.0@, d.0@, d.1));
                assert(keyed(keys, tri@) =~= keyed(keys, start) + tail.take(k + 1));
            }
            k = k + 1;
        }
        proof {
            let post = m.take(e + 1);
            assert(post.drop_last() == m.take(e as int));
            assert(post.last() == me);
            assert(tail.take(k as int) == tail);
        }
        e = e + 1;
    }
    assert(m.take(adjacency.len() as int) == m);
    tri
}

/// One row per vertex: for each destination, the last label listed for it.
fn build_rows<E: Edge>(tri: &Vec<(usize, usize, E)>, n: usize) -> (rows: Vec<Vec<(usize, E)>>)
    requires
        forall|t: int| 0 <= t < tri.len() ==> (tri@[t].0 as int) < n && (tri@[t].1 as int) < n,
    ensures
        rows@.len() == n,
        forall|i: int| 0 <= i < n ==> row_ascending(#[trigger] rows@[i]@),
        forall|i: int, k: int| 0 <= i < n && 0 <= k < rows@[i]@.len() ==> (rows@[i]@[k].0 as int) < n,
        forall|i: usize, j: usize| i < n && j < n ==> #[trigger] label_in(rows@[i as int]@, j as int) == last_label(tri@, i, j),
{
    let mut rows: Vec<Vec<(usize, E)>> = Vec::new();
    let mut i: usize = 0;
    while i < n
        invariant
            forall|t: int| 0 <= t < tri.len() ==> (tri@[t].0 as int) < n && (tri@[t].1 as int) < n,
            0 <= i <= n,
            rows@.len() == i,
            forall|a: int| 0 <= a < i ==> row_ascending(#[trigger] rows@[a]@),
            forall|a: int, k: int| 0 <= a < i && 0 <= k < rows@[a]@.len() ==> (rows@[a]@[k].0 as int) < n,
            forall|a: usize, j: usize| a < i && j < n ==> #[trigger] label_in(rows@[a as int]@, j as int) == last_label(tri@, a, j),
        decreases n - i,
    {
        let mut slots: Vec<Option<E>> = Vec::new();
        while slots.len() < n
            invariant
                slots.len() <= n,
                forall|j: int| 0 <= j < slots.len() ==> slots@[j] == None::<E>,
            decreases n - slots.len(),
        {
            slots.push(None);
        }
        let mut t: usize = 0;
        while t < tri.len()
            invariant
                forall|t: int| 0 <= t < tri.len() ==> (tri@[t].0 as int) < n && (tri@[t].1 as int) < n,
                0 <= t <= tri.len(),
                i < n,
                slots.len() == n,
                forall|j: usize| j < n ==> slots@[j as int] == last_label(tri@.take(t as int), i, j),
            decreases tri.len() - t,
        {
            let (a, b, l) = tri[t];
            if a == i {
                slots.set(b, Some(l));
            }
            proof {
                let pre = tri@.take(t as int);
                let post = tri@.take(t + 1);
                assert(post.drop_last() == pre);
                assert(post.last() == tri@[t as int]);
            }
            t = t + 1;
        }
        assert(tri@.take(tri.len() as int) == tri@);
        let mut row: Vec<(usize, E)> = Vec::new();
        let mut j: usize = 0;
        while j < n
            invariant
                0 <= j <= n,
                i < n,
                slots.len() == n,
                forall|j: usize| j < n ==> slots@[j as int] == last_label(tri@, i, j),
                row_ascending(row@),
                forall|k: int| 0 <= k < row@.len() ==> (row@[k].0 as int) < j,
                forall|c: usize| c < j ==> label_in(row@, c as int) == slots@[c as int],
            decreases n - j,
        {
            let ghost before = row@;
            if let Some(l) = slots[j] {
                row.push((j, l));
                proof {
                    assert forall|c: usize| c < j + 1 implies label_in(row@, c as int) == slots@[c as int] by {
                        if c == j {
                            lemma_label_in_at(row@, before.len() as int);
                        } else {
                            match label_in(before, c as int) {
                                Some(_) => {
                                    let k = choose|k: int| 0 <= k < before.len() && before[k].0 == c;
                                    lemma_label_in_at(before, k);
                                    lemma_label_in_at(row@, k);
                                },
                                None => {
                                    assert forall|k: int| 0 <= k < row@.len() implies row@[k].0 != c by {
                                        if k < before.len() {
                                            assert(row@[k] == before[k]);
                                        }
                                    }
                                },
                            }
                        }
                    }
                }
            } else {
                proof {
                    assert(label_in(row@, j as int) == None::<E>);
                }
            }
            j = j + 1;
        }
        rows.push(row);
        proof {
            assert forall|a: usize, c: usize| a < i + 1 && c < n implies #[trigger] label_in(rows@[a as int]@, c as int) == last_label(tri@, a, c) by {
                if a < i {
                } else {
                    assert(rows@[a as int]@ == row@);
                }
            }
        }
        i = i + 1;
    }
    rows
}

/// The predicate can be called on any value.
pub open spec fn callable<A, P: Fn(&A) -> bool>(p: P) -> bool {
    forall|a: &A| #[trigger] call_requires(p, (a,))
}

/// `r` keeps, of the vertices that `vm` includes, those on which `p`
/// answered `true`: each kept bit of an included vertex is an answer of `p`
/// on it, and an excluded vertex stays excluded.
pub open spec fn vertices_answered<V: Vertex, E: Edge, P: Fn(&V) -> bool>(g: Graph<V, E>, vm: Seq<bool>, p: P, r: Seq<bool>) -> bool {
    &&& r.len() == vm.len()
    &&& forall|i: int| 0 <= i < vm.len() && vm[i] ==> call_ensures(p, (&g.vertex(i),), #[trigger] r[i])
    &&& forall|i: int| 0 <= i < vm.len() && !vm[i] ==> !(#[trigger] r[i])
}

/// `r` keeps, of the edges that `em` includes, those on whose label `p`
/// answered `true`: each kept bit of an included edge is an answer of `p` on
/// its label, and an excluded edge stays excluded.
pub open spec fn edges_answered<E, P: Fn(&E) -> bool>(rows: Seq<Seq<(usize, E)>>, em: Seq<Seq<bool>>, p: P, r: Seq<Seq<bool>>) -> bool {
    &&& r.len() == em.len()
    &&& forall|i: int| 0 <= i < em.len() ==> (#[trigger] r[i]).len() == em[i].len()
    &&& forall|i: int, k: int|
        0 <= i < em.len() && 0 <= k < em[i].len() && em[i][k] ==> call_ensures(p, (&rows[i][k].1,), #[trigger] r[i][k])
    &&& forall|i: int, k: int| 0 <= i < em.len() && 0 <= k < em[i].len() && !em[i][k] ==> !(#[trigger] r[i][k])
}

/// The predicate can be called on any value, and what it answers is what `keep` says.
pub open spec fn computes<A, P: Fn(&A) -> bool>(p: P, keep: spec_fn(A) -> bool) -> bool {
    &&& forall|a: &A| #[trigger] call_requires(p, (a,))
    &&& forall|a: &A, b: bool| #[trigger] call_ensures(p, (a,), b) ==> b == keep(*a)
}

/// Vertex and edge masks fit the rows, and an included edge has both ends included.
pub open spec fn masks_wf<E>(rows: Seq<Seq<(usize, E)>>, vm: Seq<bool>, em: Seq<Seq<bool>>) -> bool {
    &&& vm.len() == rows.len()
    &&& em.len() == rows.len()
    &&& forall|i: int| 0 <= i < rows.len() ==> (#[trigger] em[i]).len() == rows[i].len()
    &&& forall|i: int, k: int|
        0 <= i < rows.len() && 0 <= k < rows[i].len() && #[trigger] em[i][k] ==> vm[i] && vm[rows[i][k].0 as int]
}

/// The predicate that accepts every label.
pub open spec fn all_labels<E>() -> spec_fn(E) -> bool {
    |e: E| true
}

/// Every vertex included.
pub open spec fn full_vertex_mask(n: int) -> Seq<bool> {
    Seq::new(n as nat, |i: int| true)
}

/// Every edge included.
pub open spec fn full_edge_mask<E>(rows: Seq<Seq<(usize, E)>>) -> Seq<Seq<bool>> {
    Seq::new(rows.len(), |i: int| Seq::new(rows[i].len(), |k: int| true))
}

/// No edge included.
pub open spec fn empty_edge_mask<E>(rows: Seq<Seq<(usize, E)>>) -> Seq<Seq<bool>> {
    Seq::new(rows.len(), |i: int| Seq::new(rows[i].len(), |k: int| false))
}

/// The vertex mask that also asks `keep` of each vertex.
pub open spec fn vertex_mask_keeping(vm: Seq<bool>, keep: spec_fn(int) -> bool) -> Seq<bool> {
    Seq::new(vm.len(), |i: int| vm[i] && keep(i))
}

/// The edge mask cut down to edges whose two ends `vm` includes.
pub open spec fn edge_mask_within<E>(rows: Seq<Seq<(usize, E)>>, vm: Seq<bool>, em: Seq<Seq<bool>>) -> Seq<Seq<bool>> {
    Seq::new(
        em.len(),
        |i: int| Seq::new(em[i].len(), |k: int| em[i][k] && vm[i] && vm[rows[i][k].0 as int]),
    )
}

/// The edge mask cut down to edges whose label `keep` accepts.
pub open spec fn edge_mask_keeping<E>(rows: Seq<Seq<(usize, E)>>, em: Seq<Seq<bool>>, keep: spec_fn(E) -> bool) -> Seq<Seq<bool>> {
    Seq::new(em.len(), |i: int| Seq::new(em[i].len(), |k: int| em[i][k] && keep(rows[i][k].1)))
}

/// Some included edge ends at vertex `v`.
pub open spec fn has_incoming<E>(rows: Seq<Seq<(usize, E)>>, em: Seq<Seq<bool>>, v: int) -> bool {
    exists|i: int, k: int| 0 <= i < rows.len() && 0 <= k < rows[i].len() && #[trigger] em[i][k] && rows[i][k].0 == v
}

/// The included vertices with no included edge coming in.
pub open spec fn roots_mask<E>(rows: Seq<Seq<(usize, E)>>, vm: Seq<bool>, em: Seq<Seq<bool>>) -> Seq<bool> {
    Seq::new(vm.len(), |v: int| vm[v] && !has_incoming(rows, em, v))
}

/// The vertices at most `d` steps, along edges whose label `keep` accepts,
/// from an included vertex. Every edge of the graph counts, masked or not.
pub open spec fn reached<E>(rows: Seq<Seq<(usize, E)>>, vm: Seq<bool>, keep: spec_fn(E) -> bool, d: nat) -> Seq<bool>
    decreases d,
{
    if d == 0 {
        vm
    } else {
        let prev = reached(rows, vm, keep, (d - 1) as nat);
        Seq::new(
            vm.len(),
            |v: int|
                prev[v] || exists|i: int, k: int|
                    0 <= i < rows.len() && 0 <= k < rows[i].len() && #[trigger] rows[i][k].0 == v && keep(rows[i][k].1)
                        && prev[i],
        )
    }
}

/// Vertex `v` can be reached from an included vertex along edges that `keep` accepts.
pub open spec fn reachable<E>(rows: Seq<Seq<(usize, E)>>, vm: Seq<bool>, keep: spec_fn(E) -> bool, v: int) -> bool {
    exists|d: nat| #[trigger] reached(rows, vm, keep, d)[v]
}

/// The vertices of the closure: every reachable vertex.
pub open spec fn closure_vertex_mask<E>(rows: Seq<Seq<(usize, E)>>, vm: Seq<bool>, keep: spec_fn(E) -> bool) -> Seq<bool> {
    Seq::new(vm.len(), |v: int| reachable(rows, vm, keep, v))
}

/// The edges of the closure: the included ones, and every accepted edge out of a reachable vertex.
pub open spec fn closure_edge_mask<E>(rows: Seq<Seq<(usize, E)>>, vm: Seq<bool>, em: Seq<Seq<bool>>, keep: spec_fn(E) -> bool) -> Seq<Seq<bool>> {
    Seq::new(
        em.len(),
        |i: int| Seq::new(em[i].len(), |k: int| em[i][k] || (reachable(rows, vm, keep, i) && keep(rows[i][k].1))),
    )
}

/// The included edges of a row, first `c` of them, as (destination, label).
pub open spec fn row_listing<K, E>(keys: Seq<K>, row: Seq<(usize, E)>, em: Seq<bool>, c: int) -> Seq<(K, E)>
    decreases c,
{
    if c <= 0 {
        Seq::empty()
    } else {
        let prev = row_listing(keys, row, em, c - 1);
        if em[c - 1] {
            prev.push((keys[row[c - 1].0 as int], row[c - 1].1))
        } else {
            prev
        }
    }
}

/// The included vertices among the first `n`, in order, each with its
/// included edges in order: what iterating a view yields.
pub open spec fn listing<K, E>(keys: Seq<K>, rows: Seq<Seq<(usize, E)>>, vm: Seq<bool>, em: Seq<Seq<bool>>, n: int) -> Seq<(K, Seq<(K, E)>)>
    decreases n,
{
    if n <= 0 {
        Seq::empty()
    } else {
        let prev = listing(keys, rows, vm, em, n - 1);
        if vm[n - 1] {
            prev.push((keys[n - 1], row_listing(keys, rows[n - 1], em[n - 1], rows[n - 1].len() as int)))
        } else {
            prev
        }
    }
}

/// The models of a listing made of references.
pub open spec fn listing_models<V: View, E>(l: Seq<(&V, Vec<(&V, E)>)>) -> Seq<(V::V, Seq<(V::V, E)>)> {
    l.map_values(|p: (&V, Vec<(&V, E)>)| (p.0@, p.1@.map_values(|q: (&V, E)| (q.0@, q.1))))
}

/// The label of the edge to `j` in an ascending row, found by scanning it.
fn find_label<E: Edge>(row: &Vec<(usize, E)>, j: usize) -> (r: Option<E>)
    requires
        row_ascending(row@),
    ensures
        r == label_in(row@, j as int),
{
    let mut k: usize = 0;
    while k < row.len()
        invariant
            row_ascending(row@),
            0 <= k <= row.len(),
            forall|c: int| 0 <= c < k ==> row@[c].0 != j,
        decreases row.len() - k,
    {
        if row[k].0 == j {
            proof {
                lemma_label_in_at(row@, k as int);
            }
            return Some(row[k].1);
        }
        k = k + 1;
    }
    None
}

/// Two ascending rows that agree on the label of every destination are the same row.
pub proof fn lemma_rows_equal_by_labels<E>(a: Seq<(usize, E)>, b: Seq<(usize, E)>)
    requires
        row_ascending(a),
        row_ascending(b),
        forall|j: int| label_in(a, j) == label_in(b, j),
    ensures
        a == b,
    decreases a.len() + b.len(),
{
    if a.len() == 0 && b.len() == 0 {
        assert(a =~= b);
    } else if a.len() == 0 {
        lemma_label_in_at(b, 0);
    } else if b.len() == 0 {
        lemma_label_in_at(a, 0);
    } else {
        let la = a.last();
        let lb = b.last();
        lemma_label_in_at(a, a.len() - 1);
        lemma_label_in_at(b, b.len() - 1);
        if la.0 < lb.0 {
            assert forall|k: int| 0 <= k < a.len() implies a[k].0 != lb.0 by {
                if k < a.len() - 1 {
                    assert(a[k].0 < la.0);
                }
            }
        } else if lb.0 < la.0 {
            assert forall|k: int| 0 <= k < b.len() implies b[k].0 != la.0 by {
                if k < b.len() - 1 {
                    assert(b[k].0 < lb.0);
                }
            }
        }
        assert(la == lb);
        let a1 = a.drop_last();
        let b1 = b.drop_last();
        assert forall|j: int| label_in(a1, j) == label_in(b1, j) by {
            if j == la.0 {
                assert forall|k: int| 0 <= k < a1.len() implies a1[k].0 != j by {
                    assert(a[k].0 < la.0);
                }
                assert forall|k: int| 0 <= k < b1.len() implies b1[k].0 != j by {
                    assert(b[k].0 < lb.0);
                }
            } else {
                match label_in(a, j) {
                    Some(_) => {
                        let k = choose|k: int| 0 <= k < a.len() && a[k].0 == j;
                        lemma_label_in_at(a, k);
                        lemma_label_in_at(a1, k);
                        let c = choose|c: int| 0 <= c < b.len() && b[c].0 == j;
                        lemma_label_in_at(b, c);
                        lemma_label_in_at(b1, c);
                    },
                    None => {
                        assert forall|k: int| 0 <= k < a1.len() implies a1[k].0 != j by {
                            if a1[k].0 == j {
                                assert(a[k].0 == j);
                            }
                        }
                        assert forall|k: int| 0 <= k < b1.len() implies b1[k].0 != j by {
                            if b1[k].0 == j {
                                assert(b[k].0 == j);
                            }
                        }
                    },
                }
            }
        }
        lemma_rows_equal_by_labels(a1, b1);
        assert(a =~= a1.push(la));
        assert(b =~= b1.push(lb));
    }
}

/// The keys that `m` includes among the first `n`, in order.
pub open spec fn selected<K>(keys: Seq<K>, m: Seq<bool>, n: int) -> Seq<K>
    decreases n,
{
    if n <= 0 {
        Seq::empty()
    } else if m[n - 1] {
        selected(keys, m, n - 1).push(keys[n - 1])
    } else {
        selected(keys, m, n - 1)
    }
}

/// The vertices of a listing are the selected keys.
pub proof fn lemma_listing_vertices<K, E>(keys: Seq<K>, rows: Seq<Seq<(usize, E)>>, vm: Seq<bool>, em: Seq<Seq<bool>>, n: int)
    requires
        0 <= n <= vm.len(),
        n <= keys.len(),
    ensures
        listing(keys, rows, vm, em, n).map_values(|p: (K, Seq<(K, E)>)| p.0) == selected(keys, vm, n),
    decreases n,
{
    if n > 0 {
        lemma_listing_vertices(keys, rows, vm, em, n - 1);
        let prev = listing(keys, rows, vm, em, n - 1);
        if vm[n - 1] {
            let cur = prev.push((keys[n - 1], row_listing(keys, rows[n - 1], em[n - 1], rows[n - 1].len() as int)));
            assert(cur.map_values(|p: (K, Seq<(K, E)>)| p.0) =~= prev.map_values(|p: (K, Seq<(K, E)>)| p.0).push(keys[n - 1]));
        }
    }
}

proof fn lemma_selected_full<K>(keys: Seq<K>, n: int)
    requires
        0 <= n <= keys.len(),
    ensures
        selected(keys, full_vertex_mask(keys.len() as int), n) == keys.take(n),
    decreases n,
{
    if n > 0 {
        lemma_selected_full(keys, n - 1);
        assert(keys.take(n) =~= keys.take(n - 1).push(keys[n - 1]));
    } else {
        assert(keys.take(0) =~= Seq::<K>::empty());
    }
}

/// Whether a vertex equal to `v` is in `set`.
pub fn holds<V: Vertex>(set: &Vec<V>, v: &V) -> (r: bool)
    ensures
        r == keys_of(set@).contains(v@),
{
    let mut k: usize = 0;
    while k < set.len()
        invariant
            0 <= k <= set.len(),
            forall|c: int| 0 <= c < k ==> set@[c]@ != v@,
        decreases set.len() - k,
    {
        match set[k].compare(v) {
            core::cmp::Ordering::Equal => {
                assert(keys_of(set@)[k as int] == v@);
                return true;
            },
            _ => {},
        }
        k = k + 1;
    }
    assert forall|c: int| 0 <= c < keys_of(set@).len() implies keys_of(set@)[c] != v@ by {
        assert(keys_of(set@)[c] == set@[c]@);
    }
    false
}

/// An owned adjacency description with the same models as a listing.
pub fn owned_adjacency<V: Vertex, E: Edge>(l: &Vec<(&V, Vec<(&V, E)>)>) -> (r: Vec<(V, Vec<(V, E)>)>)
    ensures
        adjacency_model(r@) == listing_models(l@),
{
    let mut out: Vec<(V, Vec<(V, E)>)> = Vec::new();
    let mut i: usize = 0;
    while i < l.len()
        invariant
            0 <= i <= l.len(),
            out.len() == i,
            adjacency_model(out@) == listing_models(l@).take(i as int),
        decreases l.len() - i,
    {
        let (v, es) = (l[i].0, &l[i].1);
        let mut row: Vec<(V, E)> = Vec::new();
        let mut k: usize = 0;
        while k < es.len()
            invariant
                0 <= k <= es.len(),
                row.len() == k,
                row@.map_values(|d: (V, E)| (d.0@, d.1)) == es@.map_values(|q: (&V, E)| (q.0@, q.1)).take(k as int),
            decreases es.len() - k,
        {
            let d = (es[k].0.duplicate(), es[k].1);
            let ghost before = row@;
            row.push(d);
            proof {
                let got = row@.map_values(|d: (V, E)| (d.0@, d.1));
                let want = es@.map_values(|q: (&V, E)| (q.0@, q.1)).take(k + 1);
                assert(before.len() == k);
                assert forall|c: int| 0 <= c < k + 1 implies got[c] == want[c] by {
                    if c < k {
                        assert(row@[c] == before[c]);
                        assert(before.map_values(|d: (V, E)| (d.0@, d.1))[c] == got[c]);
                    } else {
                        assert(row@[c] == d);
                    }
                }
                assert(got =~= want);
            }
            k = k + 1;
        }
        assert(es@.map_values(|q: (&V, E)| (q.0@, q.1)).take(es.len() as int) == es@.map_values(|q: (&V, E)| (q.0@, q.1)));
        let entry = (v.duplicate(), row);
        let ghost before = out@;
        let ghost entry_model = (entry.0@, entry.1@.map_values(|d: (V, E)| (d.0@, d.1)));
        out.push(entry);
        proof {
            let got = adjacency_model(out@);
            let want = listing_models(l@).take(i + 1);
            assert(before.len() == i);
            assert(entry_model == listing_models(l@)[i as int]);
            assert forall|c: int| 0 <= c < i + 1 implies got[c] == want[c] by {
                if c < i {
                    assert(out@[c] == before[c]);
                    assert(adjacency_model(before)[c] == got[c]);
                } else {
                    assert(got[c] == entry_model);
                }
            }
            assert(got =~= want);
        }
        i = i + 1;
    }
    assert(listing_models(l@).take(l.len() as int) == listing_models(l@));
    out
}

/// A directed graph whose edges carry labels of type `E`.
///
/// Every vertex has an index, its position in ascending order; edges are
/// stored per source as (destination index, label), ascending by destination.
#[derive(Debug)]
pub struct Graph<V: Vertex, E: Edge> {
    pub(crate) vertices: Vec<V>,
    pub(crate) edges: Vec<Vec<(usize, E)>>,
}

impl<V: Vertex, E: Edge> Graph<V, E> {
    /// The models of the vertices, ascending.
    pub open(crate) spec fn keys(&self) -> Seq<V::V> {
        keys_of(self.vertices@)
    }

    /// The vertex at index `i`.
    pub open(crate) spec fn vertex(&self, i: int) -> V {
        self.vertices@[i]
    }

    /// The outgoing edges of each vertex, by index.
    pub open(crate) spec fn rows(&self) -> Seq<Seq<(usize, E)>> {
        self.edges@.map_values(|r: Vec<(usize, E)>| r@)
    }

    /// The label of the edge from vertex `i` to vertex `j`, if there is one.
    pub open spec fn label(&self, i: int, j: int) -> Option<E> {
        label_in(self.rows()[i], j)
    }

    /// Vertices strictly ascending, and every row well formed.
    pub open spec fn wf(&self) -> bool {
        &&& strictly_sorted::<V>(self.keys())
        &&& rows_wf(self.rows(), self.keys().len() as int)
    }

    #[verifier::type_invariant]
    pub(crate) open spec fn well_formed(self) -> bool {
        self.wf()
    }

    /// Builds a graph from an adjacency description: each entry names a source
    /// and its (destination, label) edges.
    ///
    /// The vertices are every source and every destination, each once, in
    /// ascending order. Between two vertices there is at most one edge, with
    /// the label listed last for that pair.
    pub fn from_adjacency(adjacency: Vec<(V, Vec<(V, E)>)>) -> (r: Self)
        ensures
            r.wf(),
            forall|x: V::V| #[trigger] r.keys().contains(x) <==> mentions(adjacency_model(adjacency@), x),
            forall|i: int, j: int|
                0 <= i < r.keys().len() && 0 <= j < r.keys().len() ==> #[trigger] r.label(i, j) == last_label(
                    listed_edges(adjacency_model(adjacency@)),
                    r.keys()[i],
                    r.keys()[j],
                ),
    {
        let vertices = collect_vertices(&adjacency);
        let tri = index_edges(&adjacency, &vertices);
        let edges = build_rows(&tri, vertices.len());
        let r = Graph { vertices, edges };
        proof {
            let keys = keys_of(r.vertices@);
            assert(r.rows().len() == keys.len());
            assert forall|i: int, j: int| 0 <= i < keys.len() && 0 <= j < keys.len() implies #[trigger] r.label(i, j)
                == last_label(listed_edges(adjacency_model(adjacency@)), keys[i], keys[j]) by {
                assert(r.rows()[i] == r.edges@[i]@);
                lemma_last_label_by_index::<V, E>(tri@, keys, i as usize, j as usize);
            }
        }
        r
    }

    /// The graph with every edge turned around: the same vertices, and an edge
    /// from `j` to `i` with label `l` for each edge from `i` to `j` with label `l`.
    pub fn reverse(&self) -> (r: Self)
        ensures
            r.wf(),
            r.is_reverse_of(*self),
    {
        proof {
            use_type_invariant(self);
        }
        let n = self.vertices.len();
        let mut vertices: Vec<V> = Vec::new();
        let mut i: usize = 0;
        while i < n
            invariant
                n == self.vertices.len(),
                0 <= i <= n,
                keys_of(vertices@) == self.keys().take(i as int),
            decreases n - i,
        {
            let v = self.vertices[i].duplicate();
            proof {
                let next = keys_of(vertices@.push(v));
                let want = self.keys().take(i + 1);
                assert(self.keys()[i as int] == self.vertices@[i as int]@);
                assert(v@ == self.vertices@[i as int]@);
                assert(keys_of(vertices@).len() == i);
                assert(vertices@.len() == i);
                assert forall|k: int| 0 <= k < i + 1 implies next[k] == want[k] by {
                    if k < i {
                        assert(vertices@.push(v)[k] == vertices@[k]);
                        assert(next[k] == vertices@[k]@);
                        assert(keys_of(vertices@)[k] == vertices@[k]@);
                    }
                }
                assert(next =~= want);
            }
            vertices.push(v);
            i = i + 1;
        }
        assert(self.keys().take(n as int) == self.keys());
        let mut edges: Vec<Vec<(usize, E)>> = Vec::new();
        let mut i: usize = 0;
        while i < n
            invariant
                self.wf(),
                n == self.keys().len(),
                0 <= i <= n,
                edges@.len() == i,
                forall|a: int| 0 <= a < i ==> row_ascending(#[trigger] edges@[a]@),
                forall|a: int, k: int| 0 <= a < i && 0 <= k < edges@[a]@.len() ==> (edges@[a]@[k].0 as int) < n,
                forall|a: int, j: int| 0 <= a < i && 0 <= j < n ==> #[trigger] label_in(edges@[a]@, j) == self.label(j, a),
            decreases n - i,
        {
            let mut row: Vec<(usize, E)> = Vec::new();
            let mut j: usize = 0;
            while j < n
                invariant
                    self.wf(),
                    n == self.keys().len(),
                    i < n,
                    0 <= j <= n,
                    row_ascending(row@),
                    forall|k: int| 0 <= k < row@.len() ==> (row@[k].0 as int) < j,
                    forall|c: int| 0 <= c < j ==> #[trigger] label_in(row@, c) == self.label(c, i as int),
                    forall|c: int| j <= c < n ==> label_in(row@, c) == None::<E>,
                decreases n - j,
            {
                assert(self.rows()[j as int] == self.edges@[j as int]@);
                let found = find_label(&self.edges[j], i);
                let ghost before = row@;
                if let Some(l) = found {
                    row.push((j, l));
                    proof {
                        assert forall|c: int| 0 <= c < n implies #[trigger] label_in(row@, c) == if c < j + 1 {
                            self.label(c, i as int)
                        } else {
                            None::<E>
                        } by {
                            if c == j {
                                lemma_label_in_at(row@, before.len() as int);
                            } else {
                                match label_in(before, c) {
                                    Some(_) => {
                                        let k = choose|k: int| 0 <= k < before.len() && before[k].0 == c;
                                        lemma_label_in_at(before, k);
                                        lemma_label_in_at(row@, k);
                                    },
                                    None => {
                                        assert forall|k: int| 0 <= k < row@.len() implies row@[k].0 != c by {
                                            if k < before.len() {
                                                assert(row@[k] == before[k]);
                                            }
                                        }
                                    },
                                }
                            }
                        }
                    }
                }
                j = j + 1;
            }
            edges.push(row);
            proof {
                assert forall|a: int, c: int| 0 <= a < i + 1 && 0 <= c < n implies #[trigger] label_in(edges@[a]@, c) == self.label(c, a) by {
                    if a == i {
                        assert(edges@[a]@ == row@);
                    }
                }
            }
            i = i + 1;
        }
        let r = Graph { vertices, edges };
        proof {
            assert forall|a: int, c: int| 0 <= a < n && 0 <= c < n implies #[trigger] r.label(a, c) == self.label(c, a) by {
                assert(r.rows()[a] == r.edges@[a]@);
            }
        }
        r
    }

    /// `self` has the vertices of `g`, and an edge wherever `g` has the opposite edge, with its label.
    pub open spec fn is_reverse_of(&self, g: Self) -> bool {
        &&& self.keys() == g.keys()
        &&& forall|i: int, j: int|
            0 <= i < self.keys().len() && 0 <= j < self.keys().len() ==> #[trigger] self.label(i, j) == g.label(j, i)
    }

    /// Keeps the vertices that `predicate` accepts, and the edges between them.
    /// Each kept bit is what `predicate` answered on that vertex.
    pub fn filter_vertices<'g, P: Fn(&V) -> bool>(&'g self, predicate: P) -> (r: Subgraph<'g, V, E>)
        requires
            callable(predicate),
        ensures
            r.graph() == *self,
            vertices_answered(*self, full_vertex_mask(self.keys().len() as int), predicate, r.vmask()),
            r.emask() == edge_mask_within(self.rows(), r.vmask(), full_edge_mask(self.rows())),
            forall|keep: spec_fn(V) -> bool| #[trigger] computes(predicate, keep) ==> r.vmask() == vertex_mask_keeping(
                full_vertex_mask(self.keys().len() as int),
                |i: int| keep(self.vertex(i)),
            ),
    {
        Subgraph::whole(self).filter_vertices(predicate)
    }

    /// Keeps every vertex, and the edges whose label `predicate` accepts.
    /// Each kept bit is what `predicate` answered on that edge's label.
    pub fn filter_edges<'g, P: Fn(&E) -> bool>(&'g self, predicate: P) -> (r: Subgraph<'g, V, E>)
        requires
            callable(predicate),
        ensures
            r.graph() == *self,
            r.vmask() == full_vertex_mask(self.keys().len() as int),
            edges_answered(self.rows(), full_edge_mask(self.rows()), predicate, r.emask()),
            forall|keep: spec_fn(E) -> bool| #[trigger] computes(predicate, keep) ==> r.emask() == edge_mask_keeping(
                self.rows(),
                full_edge_mask(self.rows()),
                keep,
            ),
    {
        Subgraph::whole(self).filter_edges(predicate)
    }

    /// The vertices that no edge comes into, with no edges.
    pub fn roots<'g>(&'g self) -> (r: Subgraph<'g, V, E>)
        ensures
            r.graph() == *self,
            r.vmask() == roots_mask(self.rows(), full_vertex_mask(self.keys().len() as int), full_edge_mask(self.rows())),
            r.emask() == empty_edge_mask(self.rows()),
    {
        Subgraph::whole(self).roots()
    }

    /// The models of the vertices listed are the keys.
    pub proof fn lemma_vertices_are_keys(&self)
        requires
            self.wf(),
        ensures
            self@.map_values(|p: (V::V, Seq<(V::V, E)>)| p.0) == self.keys(),
    {
        let n = self.keys().len() as int;
        lemma_listing_vertices(self.keys(), self.rows(), full_vertex_mask(n), full_edge_mask(self.rows()), n);
        lemma_selected_full(self.keys(), n);
        assert(self.keys().take(n) == self.keys());
    }

    /// Which vertices an edge from a vertex marked in `qm` comes into.
    pub(crate) fn children_of(&self, qm: &Vec<bool>) -> (r: Vec<bool>)
        requires
            qm@.len() == self.keys().len(),
        ensures
            r@ == crate::adjacency::children_mask(self.rows(), qm@),
    {
        proof {
            use_type_invariant(self);
        }
        let n = self.vertices.len();
        let ghost rows = self.rows();
        let mut marked: Vec<bool> = Vec::new();
        while marked.len() < n
            invariant
                marked.len() <= n,
                forall|v: int| 0 <= v < marked.len() ==> !marked@[v],
            decreases n - marked.len(),
        {
            marked.push(false);
        }
        let mut i: usize = 0;
        while i < n
            invariant
                rows == self.rows(),
                self.wf(),
                n == rows.len(),
                qm@.len() == n,
                0 <= i <= n,
                marked.len() == n,
                forall|v: int| 0 <= v < n ==> marked@[v] == exists|a: int, c: int|
                    0 <= a < i && 0 <= c < rows[a].len() && qm@[a] && #[trigger] rows[a][c].0 == v,
            decreases n - i,
        {
            let edges = &self.edges[i];
            assert(rows[i as int] == edges@);
            let mut k: usize = 0;
            while k < edges.len()
                invariant
                    rows == self.rows(),
                    self.wf(),
                    n == rows.len(),
                    qm@.len() == n,
                    i < n,
                    rows[i as int] == edges@,
                    0 <= k <= edges.len(),
                    marked.len() == n,
                    forall|v: int| 0 <= v < n ==> marked@[v] == exists|a: int, c: int|
                        0 <= a <= i && 0 <= c < rows[a].len() && (a < i || c < k) && qm@[a] && #[trigger] rows[a][c].0 == v,
                decreases edges.len() - k,
            {
                if qm[i] {
                    marked.set(edges[k].0, true);
                }
                proof {
                    assert forall|v: int| 0 <= v < n implies marked@[v] == exists|a: int, c: int|
                        0 <= a <= i && 0 <= c < rows[a].len() && (a < i || c < k + 1) && qm@[a] && #[trigger] rows[a][c].0 == v by {
                        if qm@[i as int] && rows[i as int][k as int].0 == v {
                            assert(rows[i as int][k as int].0 == v);
                        }
                    }
                }
                k = k + 1;
            }
            i = i + 1;
        }
        assert(marked@ =~= crate::adjacency::children_mask(rows, qm@));
        marked
    }

    /// The vertices that `m` marks, ascending.
    pub(crate) fn pick<'g>(&'g self, m: &Vec<bool>) -> (r: Vec<&'g V>)
        requires
            m@.len() == self.keys().len(),
        ensures
            r@.map_values(|v: &V| v@) == selected(self.keys(), m@, self.keys().len() as int),
    {
        let n = self.vertices.len();
        let mut out: Vec<&'g V> = Vec::new();
        let mut i: usize = 0;
        while i < n
            invariant
                n == self.keys().len(),
                m@.len() == n,
                0 <= i <= n,
                out@.map_values(|v: &V| v@) == selected(self.keys(), m@, i as int),
            decreases n - i,
        {
            if m[i] {
                let v: &'g V = &self.vertices[i];
                let ghost before = out@;
                out.push(v);
                assert(out@.map_values(|v: &V| v@) =~= before.map_values(|v: &V| v@).push(self.keys()[i as int]));
            }
            i = i + 1;
        }
        out
    }

    /// The empty graph.
    pub fn new() -> (r: Self)
        ensures
            r.keys().len() == 0,
            r@ == Seq::<(V::V, Seq<(V::V, E)>)>::empty(),
    {
        Graph { vertices: Vec::new(), edges: Vec::new() }
    }
}

/// Binary search: `Ok` with the index of `v`, or `Err` with where it would go.
pub fn search<V: Vertex>(vs: &Vec<V>, v: &V) -> (r: Result<usize, usize>)
    requires
        strictly_sorted::<V>(keys_of(vs@)),
    ensures
        match r {
            Ok(i) => i < vs.len() && vs@[i as int]@ == v@,
            Err(p) => p <= vs.len() && (forall|k: int| 0 <= k < p ==> V::precedes(#[trigger] vs@[k]@, v@))
                && (forall|k: int| p <= k < vs.len() ==> V::precedes(v@, #[trigger] vs@[k]@)),
        },
{
    let ghost keys = keys_of(vs@);
    let mut lo: usize = 0;
    let mut hi: usize = vs.len();
    while lo < hi
        invariant
            keys == keys_of(vs@),
            strictly_sorted::<V>(keys),
            0 <= lo <= hi <= vs.len(),
            forall|k: int| 0 <= k < lo ==> V::precedes(#[trigger] vs@[k]@, v@),
            forall|k: int| hi <= k < vs.len() ==> V::precedes(v@, #[trigger] vs@[k]@),
        decreases hi - lo,
    {
        let mid = lo + (hi - lo) / 2;
        match vs[mid].compare(v) {
            Ordering::Equal => {
                return Ok(mid);
            },
            Ordering::Less => {
                proof {
                    assert forall|k: int| 0 <= k <= mid implies V::precedes(#[trigger] vs@[k]@, v@) by {
                        if k < mid {
                            assert(keys[k] == vs@[k]@ && keys[mid as int] == vs@[mid as int]@);
                            V::lemma_precedes_is_strict_total_order(vs@[k]@, vs@[mid as int]@, v@);
                        }
                    }
                }
                lo = mid + 1;
            },
            Ordering::Greater => {
                proof {
                    assert forall|k: int| mid <= k < vs.len() implies V::precedes(v@, #[trigger] vs@[k]@) by {
                        if k > mid {
                            assert(keys[k] == vs@[k]@ && keys[mid as int] == vs@[mid as int]@);
                            V::lemma_precedes_is_strict_total_order(v@, vs@[mid as int]@, vs@[k]@);
                        }
                    }
                }
                hi = mid;
            },
        }
    }
    Err(lo)
}

} // verus!
