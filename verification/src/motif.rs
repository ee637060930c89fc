//! Motivic analysis: the combinatorial skeleton of Vietoris-Rips complexes
//! built from musical motifs.
//!
//! Motifs are points in a feature space; which pairs of motifs lie within
//! the chosen radius of each other is handed in as a proximity matrix
//! `close`, where `close[i][j]` (for `i < j`) says that motifs `i` and `j`
//! are close. Everything built from that relation (edges, triangles,
//! connected components, clusters, the order in which components merge) is
//! computed and verified here.
use vstd::prelude::*;
use crate::graph::{
    component, component_labels, edge_adjacency, labels_ok, leader_pred, leaders,
    lemma_labels_leader, lemma_labels_member, linked, member_pred, merge_components, vertices,
};

verus! {

/// Whether motifs `i` and `j` are recorded as close in the proximity matrix.
pub open spec fn near(close: Seq<Vec<bool>>, i: int, j: int) -> bool {
    close[i]@[j]
}

/// The proximity matrix has one row of full length per motif.
pub open spec fn square(close: Seq<Vec<bool>>) -> bool {
    forall|i: int| 0 <= i < close.len() ==> #[trigger] close[i]@.len() == close.len()
}

/// Adjacency of the proximity graph: distinct motifs that are close.
pub open spec fn proximity_adjacency(close: Seq<Vec<bool>>) -> spec_fn(int, int) -> bool {
    |x: int, y: int|
        0 <= x < close.len() && 0 <= y < close.len() && ((x < y && near(close, x, y)) || (y < x
            && near(close, y, x)))
}

/// Lexicographic order of edges.
pub open spec fn edge_before(p: (usize, usize), q: (usize, usize)) -> bool {
    p.0 < q.0 || (p.0 == q.0 && p.1 < q.1)
}

/// Lexicographic order of triangles.
pub open spec fn triangle_before(p: (usize, usize, usize), q: (usize, usize, usize)) -> bool {
    p.0 < q.0 || (p.0 == q.0 && (p.1 < q.1 || (p.1 == q.1 && p.2 < q.2)))
}

/// `e` lists, in lexicographic order and once each, the pairs `(i, j)` with
/// `i < j` of motifs that are close.
pub open spec fn is_proximity_edges(e: Seq<(usize, usize)>, close: Seq<Vec<bool>>) -> bool {
    &&& forall|x: int, y: int| 0 <= x < y < e.len() ==> edge_before(#[trigger] e[x], #[trigger] e[y])
    &&& forall|x: int|
        0 <= x < e.len() ==> (#[trigger] e[x]).0 < e[x].1 < close.len() && near(close, e[x].0 as int, e[x].1 as int)
    &&& forall|i: int, j: int|
        0 <= i < j < close.len() && #[trigger] near(close, i, j) ==> e.contains((i as usize, j as usize))
}

/// All three sides of the triangle `i < j < k` are among the edges `e`.
pub open spec fn spanned(e: Seq<(usize, usize)>, i: int, j: int, k: int) -> bool {
    &&& e.contains((i as usize, j as usize))
    &&& e.contains((i as usize, k as usize))
    &&& e.contains((j as usize, k as usize))
}

/// `t` lists, in lexicographic order and once each, the triples `(i, j, k)`
/// with `i < j < k < n` whose three sides are edges of `e`.
pub open spec fn is_filled_triangles(t: Seq<(usize, usize, usize)>, e: Seq<(usize, usize)>, n: nat) -> bool {
    &&& forall|x: int, y: int| 0 <= x < y < t.len() ==> triangle_before(#[trigger] t[x], #[trigger] t[y])
    &&& forall|x: int|
        0 <= x < t.len() ==> (#[trigger] t[x]).0 < t[x].1 < t[x].2 < n && spanned(
            e,
            t[x].0 as int,
            t[x].1 as int,
            t[x].2 as int,
        )
    &&& forall|i: int, j: int, k: int|
        0 <= i < j < k < n && #[trigger] spanned(e, i, j, k) ==> t.contains(
            (i as usize, j as usize, k as usize),
        )
}

/// A simple Vietoris-Rips complex built from motifs, up to dimension 2.
#[derive(Debug, Clone)]
pub struct MotivicComplex {
    /// Number of motifs (vertices) the complex was built from.
    pub motif_count: usize,
    /// Edges (pairs of motif indices).
    pub edges: Vec<(usize, usize)>,
    /// Triangles (triples of motif indices).
    pub triangles: Vec<(usize, usize, usize)>,
}

/// The proximity edge list of `close` decides, for `i < j`, exactly the pairs that are close.
pub proof fn lemma_proximity_edge_member(e: Seq<(usize, usize)>, close: Seq<Vec<bool>>, i: int, j: int)
    requires
        is_proximity_edges(e, close),
        close.len() <= usize::MAX,
        0 <= i < j < close.len(),
    ensures
        e.contains((i as usize, j as usize)) == near(close, i, j),
{
    if e.contains((i as usize, j as usize)) {
        let x = choose|x: int| 0 <= x < e.len() && e[x] == (i as usize, j as usize);
        assert(near(close, e[x].0 as int, e[x].1 as int));
    }
}

/// The graph of a proximity edge list is the proximity graph.
pub proof fn lemma_proximity_edges_adjacency(e: Seq<(usize, usize)>, close: Seq<Vec<bool>>)
    requires
        is_proximity_edges(e, close),
        close.len() <= usize::MAX,
    ensures
        edge_adjacency(e) == proximity_adjacency(close),
{
    let f = edge_adjacency(e);
    let g = proximity_adjacency(close);
    assert forall|x: int, y: int| #[trigger] f(x, y) == g(x, y) by {
        if f(x, y) {
            let k = choose|k: int| 0 <= k < e.len() && #[trigger] crate::graph::joins(e[k], x, y);
            assert(near(close, e[k].0 as int, e[k].1 as int));
        }
        if g(x, y) {
            let (i, j) = if x < y {
                (x, y)
            } else {
                (y, x)
            };
            lemma_proximity_edge_member(e, close, i, j);
            let k = choose|k: int| 0 <= k < e.len() && e[k] == (i as usize, j as usize);
            assert(crate::graph::joins(e[k], x, y));
        }
    }
    assert(f =~= g);
}

impl MotivicComplex {
    /// Every edge joins two of the complex's motifs.
    pub open spec fn wf(self) -> bool {
        forall|e: int|
            0 <= e < self.edges@.len() ==> (#[trigger] self.edges@[e]).0 < self.motif_count
                && self.edges@[e].1 < self.motif_count
    }

    /// Build a Vietoris-Rips complex up to dimension 2: an edge for each pair
    /// of close motifs, a triangle for each triple whose three edges exist.
    pub fn build(close: &Vec<Vec<bool>>) -> (c: Self)
        requires
            square(close@),
        ensures
            c.motif_count == close@.len(),
            is_proximity_edges(c.edges@, close@),
            is_filled_triangles(c.triangles@, c.edges@, close@.len()),
            c.wf(),
    {
        let n = close.len();
        let mut edges: Vec<(usize, usize)> = Vec::new();
        for i in 0..n
            invariant
                n == close@.len(),
                square(close@),
                forall|x: int, y: int|
                    0 <= x < y < edges@.len() ==> edge_before(#[trigger] edges@[x], #[trigger] edges@[y]),
                forall|x: int|
                    0 <= x < edges@.len() ==> (#[trigger] edges@[x]).0 < edges@[x].1 < n && near(
                        close@,
                        edges@[x].0 as int,
                        edges@[x].1 as int,
                    ) && edges@[x].0 < i,
                forall|a: int, b: int|
                    0 <= a < b < n && a < i && #[trigger] near(close@, a, b) ==> edges@.contains(
                        (a as usize, b as usize),
                    ),
        {
            for j in (i + 1)..n
                invariant
                    n == close@.len(),
                    square(close@),
                    i < n,
                    forall|x: int, y: int|
                        0 <= x < y < edges@.len() ==> edge_before(#[trigger] edges@[x], #[trigger] edges@[y]),
                    forall|x: int|
                        0 <= x < edges@.len() ==> (#[trigger] edges@[x]).0 < edges@[x].1 < n && near(
                            close@,
                            edges@[x].0 as int,
                            edges@[x].1 as int,
                        ) && (edges@[x].0 < i || (edges@[x].0 == i && edges@[x].1 < j)),
                    forall|a: int, b: int|
                        0 <= a < b < n && (a < i || (a == i && b < j)) && #[trigger] near(close@, a, b)
                            ==> edges@.contains((a as usize, b as usize)),
            {
                assert(close@[i as int]@.len() == n);
                if close[i][j] {
                    let ghost before = edges@;
                    edges.push((i, j));
                    assert(edges@[edges@.len() - 1] == (i, j));
                    assert forall|a: int, b: int|
                        0 <= a < b < n && (a < i || (a == i && b < j + 1)) && #[trigger] near(
                            close@,
                            a,
                            b,
                        ) implies edges@.contains((a as usize, b as usize)) by {
                        if a == i && b == j {
                            assert(edges@[edges@.len() - 1] == (a as usize, b as usize));
                        } else {
                            assert(before.contains((a as usize, b as usize)));
                            let x = choose|x: int| 0 <= x < before.len() && before[x] == (a as usize, b as usize);
                            assert(edges@[x] == before[x]);
                        }
                    }
                }
            }
        }
        let mut triangles: Vec<(usize, usize, usize)> = Vec::new();
        for i in 0..n
            invariant
                n == close@.len(),
                square(close@),
                is_proximity_edges(edges@, close@),
                forall|x: int, y: int|
                    0 <= x < y < triangles@.len() ==> triangle_before(
                        #[trigger] triangles@[x],
                        #[trigger] triangles@[y],
                    ),
                forall|x: int|
                    0 <= x < triangles@.len() ==> (#[trigger] triangles@[x]).0 < triangles@[x].1
                        < triangles@[x].2 < n && spanned(
                        edges@,
                        triangles@[x].0 as int,
                        triangles@[x].1 as int,
                        triangles@[x].2 as int,
                    ) && triangles@[x].0 < i,
                forall|a: int, b: int, c: int|
                    0 <= a < b < c < n && a < i && #[trigger] spanned(edges@, a, b, c) ==> triangles@.contains(
                        (a as usize, b as usize, c as usize),
                    ),
        {
            for j in (i + 1)..n
                invariant
                    n == close@.len(),
                    square(close@),
                    i < n,
                    is_proximity_edges(edges@, close@),
                    forall|x: int, y: int|
                        0 <= x < y < triangles@.len() ==> triangle_before(
                            #[trigger] triangles@[x],
                            #[trigger] triangles@[y],
                        ),
                    forall|x: int|
                        0 <= x < triangles@.len() ==> (#[trigger] triangles@[x]).0 < triangles@[x].1
                            < triangles@[x].2 < n && spanned(
                            edges@,
                            triangles@[x].0 as int,
                            triangles@[x].1 as int,
                            triangles@[x].2 as int,
                        ) && (triangles@[x].0 < i || (triangles@[x].0 == i && triangles@[x].1 < j)),
                    forall|a: int, b: int, c: int|
                        0 <= a < b < c < n && (a < i || (a == i && b < j)) && #[trigger] spanned(
                            edges@,
                            a,
                            b,
                            c,
                        ) ==> triangles@.contains((a as usize, b as usize, c as usize)),
            {
                for k in (j + 1)..n
                    invariant
                        n == close@.len(),
                        square(close@),
                        i < j < n,
                        is_proximity_edges(edges@, close@),
                        forall|x: int, y: int|
                            0 <= x < y < triangles@.len() ==> triangle_before(
                                #[trigger] triangles@[x],
                                #[trigger] triangles@[y],
                            ),
                        forall|x: int|
                            0 <= x < triangles@.len() ==> (#[trigger] triangles@[x]).0
                                < triangles@[x].1 < triangles@[x].2 < n && spanned(
                                edges@,
                                triangles@[x].0 as int,
                                triangles@[x].1 as int,
                                triangles@[x].2 as int,
                            ) && (triangles@[x].0 < i || (triangles@[x].0 == i && (triangles@[x].1 < j
                                || (triangles@[x].1 == j && triangles@[x].2 < k)))),
                        forall|a: int, b: int, c: int|
                            0 <= a < b < c < n && (a < i || (a == i && (b < j || (b == j && c < k))))
                                && #[trigger] spanned(edges@, a, b, c) ==> triangles@.contains(
                                (a as usize, b as usize, c as usize),
                            ),
                {
                    assert(close@[i as int]@.len() == n);
                    assert(close@[j as int]@.len() == n);
                    proof {
                        lemma_proximity_edge_member(edges@, close@, i as int, j as int);
                        lemma_proximity_edge_member(edges@, close@, i as int, k as int);
                        lemma_proximity_edge_member(edges@, close@, j as int, k as int);
                    }
                    if close[i][j] && close[i][k] && close[j][k] {
                        let ghost before = triangles@;
                        triangles.push((i, j, k));
                        assert(triangles@[triangles@.len() - 1] == (i, j, k));
                        assert(spanned(edges@, i as int, j as int, k as int));
                        assert forall|a: int, b: int, c: int|
                            0 <= a < b < c < n && (a < i || (a == i && (b < j || (b == j && c < k + 1))))
                                && #[trigger] spanned(edges@, a, b, c) implies triangles@.contains(
                                (a as usize, b as usize, c as usize),
                            ) by {
                            if a == i && b == j && c == k {
                                assert(triangles@[triangles@.len() - 1] == (a as usize, b as usize, c as usize));
                            } else {
                                assert(before.contains((a as usize, b as usize, c as usize)));
                                let x = choose|x: int|
                                    0 <= x < before.len() && before[x] == (a as usize, b as usize, c as usize);
                                assert(triangles@[x] == before[x]);
                            }
                        }
                    } else {
                        assert(!spanned(edges@, i as int, j as int, k as int));
                    }
                }
            }
        }
        MotivicComplex { motif_count: n, edges, triangles }
    }

    /// Number of connected components: one per motif that is the least of
    /// the motifs it is connected to.
    pub fn num_components(&self) -> (c: usize)
        requires
            self.motif_count > 0 ==> self.wf(),
        ensures
            c == leaders(edge_adjacency(self.edges@), self.motif_count as nat).len(),
    {
        let n = self.motif_count;
        if n == 0 {
            proof {
                reveal_with_fuel(Seq::<_>::filter, 1);
                assert(vertices(0) =~= Seq::<usize>::empty());
            }
            return 0;
        }
        let lab = component_labels(n, &self.edges);
        count_leaders(&lab, Ghost(edge_adjacency(self.edges@)))
    }

    /// Euler characteristic: vertices minus edges plus triangles.
    pub fn euler_characteristic(&self) -> (chi: i64)
        requires
            self.motif_count <= i64::MAX,
            self.edges@.len() <= i64::MAX,
            self.triangles@.len() <= i64::MAX,
            self.motif_count - self.edges@.len() + self.triangles@.len() <= i64::MAX,
        ensures
            chi == self.motif_count - self.edges@.len() + self.triangles@.len(),
    {
        let v = self.motif_count as i64;
        let e = self.edges.len() as i64;
        let t = self.triangles.len() as i64;
        v - e + t
    }
}

/// Count the vertices of a component labelling that carry their own label.
fn count_leaders(lab: &Vec<usize>, Ghost(adj): Ghost<spec_fn(int, int) -> bool>) -> (c: usize)
    requires
        labels_ok(lab@, lab@.len() as nat, adj),
    ensures
        c == leaders(adj, lab@.len() as nat).len(),
{
    let n = lab.len();
    let mut count: usize = 0;
    for v in 0..n
        invariant
            n == lab@.len(),
            labels_ok(lab@, n as nat, adj),
            count <= v,
            count == vertices(n as nat).take(v as int).filter(leader_pred(adj)).len(),
    {
        proof {
            lemma_labels_leader(lab@, n as nat, adj, v as int);
            reveal_with_fuel(Seq::<_>::filter, 1);
            assert(vertices(n as nat).take(v + 1).drop_last() =~= vertices(n as nat).take(v as int));
            assert(vertices(n as nat).take(v + 1).last() == v);
        }
        if lab[v] == v {
            count = count + 1;
        }
    }
    assert(vertices(n as nat).take(n as int) =~= vertices(n as nat));
    count
}

/// The vertices among `0..n` with label `r`.
fn label_class(lab: &Vec<usize>, r: usize, Ghost(adj): Ghost<spec_fn(int, int) -> bool>) -> (members: Vec<usize>)
    requires
        labels_ok(lab@, lab@.len() as nat, adj),
        r < lab@.len(),
        lab@[r as int] == r,
    ensures
        members@ == component(adj, lab@.len() as nat, r as int),
{
    let n = lab.len();
    let mut members: Vec<usize> = Vec::new();
    for v in 0..n
        invariant
            n == lab@.len(),
            labels_ok(lab@, n as nat, adj),
            r < n,
            lab@[r as int] == r,
            members@ == vertices(n as nat).take(v as int).filter(member_pred(adj, r as int)),
    {
        proof {
            lemma_labels_member(lab@, n as nat, adj, r as int, v as int);
            reveal_with_fuel(Seq::<_>::filter, 1);
            assert(vertices(n as nat).take(v + 1).drop_last() =~= vertices(n as nat).take(v as int));
            assert(vertices(n as nat).take(v + 1).last() == v);
        }
        if lab[v] == r {
            members.push(v);
        }
    }
    assert(vertices(n as nat).take(n as int) =~= vertices(n as nat));
    members
}

/// Cluster motifs by connectivity in the proximity graph: one cluster per
/// connected component, in increasing order of its least motif, each listing
/// its motifs in increasing order.
pub fn cluster_motifs(close: &Vec<Vec<bool>>) -> (clusters: Vec<Vec<usize>>)
    requires
        square(close@),
    ensures
        clusters@.len() == leaders(proximity_adjacency(close@), close@.len()).len(),
        forall|c: int|
            0 <= c < clusters@.len() ==> (#[trigger] clusters@[c])@ == component(
                proximity_adjacency(close@),
                close@.len(),
                leaders(proximity_adjacency(close@), close@.len())[c] as int,
            ),
{
    let complex = MotivicComplex::build(close);
    let n = close.len();
    let lab = component_labels(n, &complex.edges);
    let ghost adj = proximity_adjacency(close@);
    proof {
        lemma_proximity_edges_adjacency(complex.edges@, close@);
    }
    let mut clusters: Vec<Vec<usize>> = Vec::new();
    for r in 0..n
        invariant
            n == lab@.len(),
            n == close@.len(),
            adj == proximity_adjacency(close@),
            labels_ok(lab@, n as nat, adj),
            clusters@.len() == vertices(n as nat).take(r as int).filter(leader_pred(adj)).len(),
            forall|c: int|
                0 <= c < clusters@.len() ==> (#[trigger] clusters@[c])@ == component(
                    adj,
                    n as nat,
                    vertices(n as nat).take(r as int).filter(leader_pred(adj))[c] as int,
                ),
    {
        proof {
            lemma_labels_leader(lab@, n as nat, adj, r as int);
            reveal_with_fuel(Seq::<_>::filter, 1);
            assert(vertices(n as nat).take(r + 1).drop_last() =~= vertices(n as nat).take(r as int));
            assert(vertices(n as nat).take(r + 1).last() == r);
        }
        if lab[r] == r {
            let members = label_class(&lab, r, Ghost(adj));
            clusters.push(members);
        }
    }
    assert(vertices(n as nat).take(n as int) =~= vertices(n as nat));
    clusters
}

/// An entry of a persistence diagram for the connected components (H0).
///
/// Every component is born at radius zero. A component dies when the pair of
/// motifs at position `k` of the examined pair list joins it to another; that
/// pair's distance is the radius of death, and `death` holds `Some(k)`.
/// Components that never die have `death == None`.
#[derive(Debug, Clone, Copy, PartialEq, Eq, Structural)]
pub struct MotivicPersistencePair {
    /// Dimension.
    pub dim: usize,
    /// Position in the pair list of the pair whose distance is the death radius.
    pub death: Option<usize>,
}

/// Pair `a` comes before pair `b` in the filtration: a smaller key, or an
/// equal key and an earlier position.
pub open spec fn key_before(keys: Seq<i64>, a: usize, b: usize) -> bool {
    keys[a as int] < keys[b as int] || (keys[a as int] == keys[b as int] && a < b)
}

/// `order` lists, once each, the positions of the keys at or below `cutoff`,
/// by increasing key, equal keys in order of position: the
/// stable sort of the pairs by distance, cut at the largest radius.
pub open spec fn is_filtration_order(order: Seq<usize>, keys: Seq<i64>, cutoff: i64) -> bool {
    &&& forall|x: int, y: int|
        0 <= x < y < order.len() ==> key_before(keys, #[trigger] order[x], #[trigger] order[y])
    &&& forall|x: int| 0 <= x < order.len() ==> (#[trigger] order[x]) < keys.len() && keys[order[x] as int] <= cutoff
    &&& forall|i: int| 0 <= i < keys.len() && #[trigger] keys[i] <= cutoff ==> order.contains(i as usize)
}

/// Inserting position `i` into a filtration order of the earlier positions,
/// just after the entries whose keys are at most its key, gives a filtration
/// order of the positions up to `i`.
proof fn lemma_insert_in_filtration(keys: Seq<i64>, old: Seq<usize>, p: int, i: int, cutoff: i64)
    requires
        0 <= i < keys.len(),
        i <= usize::MAX,
        keys[i] <= cutoff,
        0 <= p <= old.len(),
        forall|x: int, y: int| 0 <= x < y < old.len() ==> key_before(keys, #[trigger] old[x], #[trigger] old[y]),
        forall|x: int| 0 <= x < old.len() ==> (#[trigger] old[x]) < i && keys[old[x] as int] <= cutoff,
        forall|j: int| 0 <= j < i && #[trigger] keys[j] <= cutoff ==> old.contains(j as usize),
        forall|x: int| 0 <= x < p ==> keys[(#[trigger] old[x]) as int] <= keys[i],
        p < old.len() ==> keys[old[p] as int] > keys[i],
    ensures
        forall|x: int, y: int|
            0 <= x < y < old.insert(p, i as usize).len() ==> key_before(
                keys,
                #[trigger] old.insert(p, i as usize)[x],
                #[trigger] old.insert(p, i as usize)[y],
            ),
        forall|x: int|
            0 <= x < old.insert(p, i as usize).len() ==> (#[trigger] old.insert(p, i as usize)[x]) < i + 1
                && keys[old.insert(p, i as usize)[x] as int] <= cutoff,
        forall|j: int| 0 <= j < i + 1 && #[trigger] keys[j] <= cutoff ==> old.insert(p, i as usize).contains(
            j as usize,
        ),
{
    let new = old.insert(p, i as usize);
    old.insert_ensures(p, i as usize);
    assert forall|x: int| p <= x < old.len() implies keys[(#[trigger] old[x]) as int] > keys[i] by {
        if x > p {
            assert(key_before(keys, old[p], old[x]));
        }
    }
    assert forall|x: int, y: int| 0 <= x < y < new.len() implies key_before(
        keys,
        #[trigger] new[x],
        #[trigger] new[y],
    ) by {
        if y < p {
            assert(new[x] == old[x] && new[y] == old[y]);
        } else if y == p {
            assert(new[x] == old[x]);
        } else if x < p {
            assert(new[x] == old[x] && new[y] == old[y - 1]);
            assert(keys[old[y - 1] as int] > keys[i]);
        } else if x == p {
            assert(new[y] == old[y - 1]);
            assert(keys[old[y - 1] as int] > keys[i]);
        } else {
            assert(new[x] == old[x - 1] && new[y] == old[y - 1]);
            assert(key_before(keys, old[x - 1], old[y - 1]));
        }
    }
    assert forall|x: int| 0 <= x < new.len() implies (#[trigger] new[x]) < i + 1 && keys[new[x] as int]
        <= cutoff by {
        if x < p {
            assert(new[x] == old[x]);
        } else if x > p {
            assert(new[x] == old[x - 1]);
        }
    }
    assert forall|j: int| 0 <= j < i + 1 && #[trigger] keys[j] <= cutoff implies new.contains(j as usize) by {
        if j == i {
            assert(new[p] == j as usize);
        } else {
            assert(old.contains(j as usize));
            let x = choose|x: int| 0 <= x < old.len() && old[x] == j as usize;
            if x < p {
                assert(new[x] == j as usize);
            } else {
                assert(new[x + 1] == j as usize);
            }
        }
    }
}

/// The order in which pairs of motifs enter the filtration: the positions
/// of the pairs whose distance key is at most `cutoff`, sorted stably by key.
pub fn persistence_order(keys: &Vec<i64>, cutoff: i64) -> (order: Vec<usize>)
    ensures
        is_filtration_order(order@, keys@, cutoff),
{
    let n = keys.len();
    let mut order: Vec<usize> = Vec::new();
    for i in 0..n
        invariant
            n == keys@.len(),
            forall|x: int, y: int|
                0 <= x < y < order@.len() ==> key_before(keys@, #[trigger] order@[x], #[trigger] order@[y]),
            forall|x: int|
                0 <= x < order@.len() ==> (#[trigger] order@[x]) < i && keys@[order@[x] as int] <= cutoff,
            forall|j: int| 0 <= j < i && #[trigger] keys@[j] <= cutoff ==> order@.contains(j as usize),
    {
        let ki = keys[i];
        if ki <= cutoff {
            let len = order.len();
            let mut p: usize = 0;
            while p < len && keys[order[p]] <= ki
                invariant
                    0 <= p <= len,
                    i < n,
                    len == order@.len(),
                    n == keys@.len(),
                    ki == keys@[i as int],
                    forall|x: int| 0 <= x < order@.len() ==> (#[trigger] order@[x]) < i,
                    forall|x: int| 0 <= x < p ==> keys@[(#[trigger] order@[x]) as int] <= ki,
                decreases len - p,
            {
                p = p + 1;
            }
            let ghost old_order = order@;
            proof {
                lemma_insert_in_filtration(keys@, old_order, p as int, i as int, cutoff);
            }
            order.insert(p, i);
        }
    }
    order
}

/// Whether the pair at position `k` joins two components that the earlier
/// pairs left apart.
pub open spec fn merges_at(p: Seq<(usize, usize)>) -> spec_fn(usize) -> bool {
    |k: usize| !linked(edge_adjacency(p.take(k as int)), p[k as int].0 as int, p[k as int].1 as int)
}

/// Positions of the pairs that merge two components, in order.
pub open spec fn merge_positions(p: Seq<(usize, usize)>) -> Seq<usize> {
    vertices(p.len()).filter(merges_at(p))
}

/// The diagram entry of the class that dies at the pair in position `k`.
pub open spec fn dying_class() -> spec_fn(usize) -> MotivicPersistencePair {
    |k: usize| MotivicPersistencePair { dim: 0, death: Some(k) }
}

/// The H0 persistence diagram of `n` motifs whose pairs, in order of
/// increasing distance, are `p`: a dying class for each merging pair, then an
/// essential class for each component left at the end.
pub open spec fn persistence_diagram(n: nat, p: Seq<(usize, usize)>) -> Seq<MotivicPersistencePair> {
    merge_positions(p).map_values(dying_class()) + Seq::new(
        leaders(edge_adjacency(p), n).len(),
        |i: int| MotivicPersistencePair { dim: 0, death: None },
    )
}

/// Compute motivic persistence (simplified) for H0: the connected components
/// merging as the pairs of motifs are added in the given order, which is the
/// order of increasing distance, up to the largest radius considered.
pub fn motivic_persistence(n: usize, pairs: &Vec<(usize, usize)>) -> (diagram: Vec<MotivicPersistencePair>)
    requires
        forall|e: int| 0 <= e < pairs@.len() ==> (#[trigger] pairs@[e]).0 < n && pairs@[e].1 < n,
    ensures
        diagram@ == persistence_diagram(n as nat, pairs@),
{
    let mut diagram: Vec<MotivicPersistencePair> = Vec::new();
    let mut lab: Vec<usize> = Vec::new();
    let mut v: usize = 0;
    while v < n
        invariant
            0 <= v <= n,
            lab@.len() == v,
            forall|w: int| 0 <= w < v ==> #[trigger] lab@[w] == w,
        decreases n - v,
    {
        lab.push(v);
        v = v + 1;
    }
    assert(pairs@.take(0) =~= Seq::<(usize, usize)>::empty());
    assert forall|u: int, w: int| 0 <= u < n && 0 <= w < n implies ((lab@[u] == lab@[w])
        == #[trigger] linked(edge_adjacency(pairs@.take(0)), u, w)) by {
        crate::graph::lemma_no_edges_linked(u, w);
    }
    let m = pairs.len();
    let ghost p = pairs@;
    let ghost to_pair = dying_class();
    for k in 0..m
        invariant
            m == p.len(),
            p == pairs@,
            to_pair == dying_class(),
            forall|e: int| 0 <= e < p.len() ==> (#[trigger] p[e]).0 < n && p[e].1 < n,
            labels_ok(lab@, n as nat, edge_adjacency(p.take(k as int))),
            diagram@ == vertices(m as nat).take(k as int).filter(merges_at(p)).map_values(to_pair),
    {
        let (a, b) = pairs[k];
        proof {
            crate::graph::lemma_edge_adjacency_symmetric(p.take(k as int));
            crate::graph::lemma_edge_adjacency_extend(p, k as int);
            reveal_with_fuel(Seq::<_>::filter, 1);
            assert(vertices(m as nat).take(k + 1).drop_last() =~= vertices(m as nat).take(k as int));
            assert(vertices(m as nat).take(k + 1).last() == k);
        }
        let ghost before = diagram@;
        let merged = merge_components(&mut lab, a, b, Ghost(edge_adjacency(p.take(k as int))));
        if merged {
            diagram.push(MotivicPersistencePair { dim: 0, death: Some(k) });
            proof {
                let f = vertices(m as nat).take(k as int).filter(merges_at(p));
                assert(merges_at(p)(k));
                assert(vertices(m as nat).take(k + 1).filter(merges_at(p)) == f.push(k));
                assert(f.push(k).map_values(to_pair) =~= before.push(to_pair(k)));
                assert(diagram@ == before.push(MotivicPersistencePair { dim: 0, death: Some(k) }));
                assert(to_pair(k) == MotivicPersistencePair { dim: 0, death: Some(k) });
            }
        } else {
            assert(diagram@ =~= vertices(m as nat).take(k + 1).filter(merges_at(p)).map_values(to_pair));
        }
    }
    assert(vertices(m as nat).take(m as int) =~= vertices(m as nat));
    assert(p.take(m as int) =~= p);
    let ghost deaths = diagram@;
    let essential = count_leaders(&lab, Ghost(edge_adjacency(p)));
    let mut i: usize = 0;
    while i < essential
        invariant
            0 <= i <= essential,
            to_pair == dying_class(),
            deaths == merge_positions(p).map_values(to_pair),
            diagram@ == deaths + Seq::new(i as nat, |j: int| MotivicPersistencePair { dim: 0, death: None }),
        decreases essential - i,
    {
        diagram.push(MotivicPersistencePair { dim: 0, death: None });
        i = i + 1;
        assert(diagram@ =~= deaths + Seq::new(i as nat, |j: int| MotivicPersistencePair { dim: 0, death: None }));
    }
    diagram
}

proof fn lemma_persistence_prefix(n: nat, p: Seq<(usize, usize)>, k: int)
    requires
        n <= usize::MAX,
        p.len() <= usize::MAX,
        0 <= k <= p.len(),
        forall|e: int| 0 <= e < p.len() ==> (#[trigger] p[e]).0 < n && p[e].1 < n,
    ensures
        vertices(p.len()).take(k).filter(merges_at(p)).len() + leaders(edge_adjacency(p.take(k)), n).len() == n,
    decreases k,
{
    reveal_with_fuel(Seq::<_>::filter, 1);
    if k == 0 {
        assert(p.take(0) =~= Seq::<(usize, usize)>::empty());
        assert(vertices(p.len()).take(0) =~= Seq::<usize>::empty());
        crate::graph::lemma_leaders_no_edges(n);
    } else {
        lemma_persistence_prefix(n, p, k - 1);
        let adj = edge_adjacency(p.take(k - 1));
        let (a, b) = p[k - 1];
        crate::graph::lemma_edge_adjacency_symmetric(p.take(k - 1));
        crate::graph::lemma_edge_adjacency_extend(p, k - 1);
        assert(vertices(p.len()).take(k).drop_last() =~= vertices(p.len()).take(k - 1));
        assert(vertices(p.len()).take(k).last() == (k - 1) as usize);
        assert(merges_at(p)((k - 1) as usize) == !linked(adj, a as int, b as int));
        if linked(adj, a as int, b as int) {
            crate::graph::lemma_leaders_edge_within(adj, a as int, b as int, n);
        } else {
            crate::graph::lemma_leaders_edge_across(adj, a as int, b as int, n);
        }
    }
}

/// Persistence accounts for every motif exactly once: each of the `n` motifs
/// is born as a component, each merging pair kills one, and the components
/// that are left are the essential classes. So the diagram of `n` motifs has
/// exactly `n` entries, and its essential classes are as many as the
/// connected components of the pairs considered.
pub proof fn lemma_persistence_accounts_for_every_motif(n: nat, p: Seq<(usize, usize)>)
    requires
        n <= usize::MAX,
        p.len() <= usize::MAX,
        forall|e: int| 0 <= e < p.len() ==> (#[trigger] p[e]).0 < n && p[e].1 < n,
    ensures
        merge_positions(p).len() + leaders(edge_adjacency(p), n).len() == n,
        persistence_diagram(n, p).len() == n,
{
    lemma_persistence_prefix(n, p, p.len() as int);
    assert(vertices(p.len()).take(p.len() as int) =~= vertices(p.len()));
    assert(p.take(p.len() as int) =~= p);
}

/// The number of connected components of the complex built from a proximity
/// matrix equals the number of clusters of that matrix.
pub proof fn lemma_components_are_clusters(c: MotivicComplex, close: Seq<Vec<bool>>)
    requires
        c.motif_count == close.len(),
        is_proximity_edges(c.edges@, close),
    ensures
        leaders(edge_adjacency(c.edges@), c.motif_count as nat) == leaders(
            proximity_adjacency(close),
            close.len(),
        ),
{
    lemma_proximity_edges_adjacency(c.edges@, close);
}

/// A non-empty set of motifs has at least one and at most one component per motif.
pub proof fn lemma_component_count_bounds(adj: spec_fn(int, int) -> bool, n: nat)
    requires
        n <= usize::MAX,
    ensures
        leaders(adj, n).len() <= n,
        n > 0 ==> leaders(adj, n).len() >= 1,
{
    vertices(n).lemma_filter_len(leader_pred(adj));
    if n > 0 {
        assert(vertices(n)[0] == 0);
        assert(leader_pred(adj)(vertices(n)[0]));
        vertices(n).lemma_filter_contains(leader_pred(adj), 0);
    }
}

/// The proximity graph is undirected.
pub proof fn lemma_proximity_symmetric(close: Seq<Vec<bool>>)
    ensures
        crate::graph::symmetric(proximity_adjacency(close)),
{
}

/// The clusters partition the motifs: every motif lies in the cluster of
/// some leader, and all clusters that contain it share that leader.
pub proof fn lemma_clusters_partition(adj: spec_fn(int, int) -> bool, n: nat, v: int)
    requires
        n <= usize::MAX,
        crate::graph::symmetric(adj),
        0 <= v < n,
    ensures
        exists|c: int|
            0 <= c < leaders(adj, n).len() && #[trigger] component(adj, n, leaders(adj, n)[c] as int).contains(
                v as usize,
            ),
        forall|c1: int, c2: int|
            0 <= c1 < leaders(adj, n).len() && 0 <= c2 < leaders(adj, n).len() && #[trigger] component(
                adj,
                n,
                leaders(adj, n)[c1] as int,
            ).contains(v as usize) && #[trigger] component(adj, n, leaders(adj, n)[c2] as int).contains(
                v as usize,
            ) ==> leaders(adj, n)[c1] == leaders(adj, n)[c2],
{
    crate::graph::lemma_representative(adj, v);
    let r = crate::graph::representative(adj, v);
    assert(vertices(n)[r] == r as usize);
    vertices(n).lemma_filter_contains(leader_pred(adj), r);
    let c = choose|c: int| 0 <= c < leaders(adj, n).len() && leaders(adj, n)[c] == r as usize;
    assert(vertices(n)[v] == v as usize);
    vertices(n).lemma_filter_contains(member_pred(adj, r), v);
    assert(component(adj, n, leaders(adj, n)[c] as int).contains(v as usize));
    assert forall|c1: int, c2: int|
        0 <= c1 < leaders(adj, n).len() && 0 <= c2 < leaders(adj, n).len() && #[trigger] component(
            adj,
            n,
            leaders(adj, n)[c1] as int,
        ).contains(v as usize) && #[trigger] component(adj, n, leaders(adj, n)[c2] as int).contains(
            v as usize,
        ) implies leaders(adj, n)[c1] == leaders(adj, n)[c2] by {
        let l1 = leaders(adj, n)[c1] as int;
        let l2 = leaders(adj, n)[c2] as int;
        vertices(n).lemma_filter_pred(leader_pred(adj), c1);
        vertices(n).lemma_filter_pred(leader_pred(adj), c2);
        let i1 = choose|i: int| 0 <= i < component(adj, n, l1).len() && component(adj, n, l1)[i] == v as usize;
        let i2 = choose|i: int| 0 <= i < component(adj, n, l2).len() && component(adj, n, l2)[i] == v as usize;
        vertices(n).lemma_filter_pred(member_pred(adj, l1), i1);
        vertices(n).lemma_filter_pred(member_pred(adj, l2), i2);
        crate::graph::lemma_leader_unique(adj, l1, l2, v);
    }
}

/// Filtering the vertices keeps them strictly increasing, below `n`, and
/// keeps exactly the vertices that satisfy the predicate.
pub proof fn lemma_vertices_filter(n: nat, p: spec_fn(usize) -> bool)
    requires
        n <= usize::MAX,
    ensures
        forall|x: int, y: int|
            0 <= x < y < vertices(n).filter(p).len() ==> #[trigger] vertices(n).filter(p)[x]
                < #[trigger] vertices(n).filter(p)[y],
        forall|x: int| 0 <= x < vertices(n).filter(p).len() ==> #[trigger] vertices(n).filter(p)[x] < n,
        forall|v: usize| #[trigger] vertices(n).filter(p).contains(v) <==> (v < n && p(v)),
    decreases n,
{
    reveal_with_fuel(Seq::<_>::filter, 1);
    if n > 0 {
        let k = (n - 1) as nat;
        lemma_vertices_filter(k, p);
        assert(vertices(n).drop_last() =~= vertices(k));
        assert(vertices(n).last() == k as usize);
        let f = vertices(k).filter(p);
        if p(k as usize) {
            let g = f.push(k as usize);
            assert(vertices(n).filter(p) == g);
            assert forall|v: usize| #[trigger] g.contains(v) <==> (v < n && p(v)) by {
                if g.contains(v) {
                    let x = choose|x: int| 0 <= x < g.len() && #[trigger] g[x] == v;
                    if x < f.len() {
                        assert(f[x] == v);
                        assert(f.contains(v));
                    }
                }
                if v < n && p(v) {
                    if v < k {
                        assert(f.contains(v));
                        let x = choose|x: int| 0 <= x < f.len() && #[trigger] f[x] == v;
                        assert(g[x] == v);
                    } else {
                        assert(g[f.len() as int] == v);
                    }
                }
            }
        } else {
            assert(vertices(n).filter(p) == f);
        }
    } else {
        assert(vertices(n) =~= Seq::<usize>::empty());
    }
}

/// The clusters are the connected components: each is non-empty, lists its
/// motifs in strictly increasing order starting with its leader, holds
/// exactly the motifs linked to that leader, and the clusters come in
/// strictly increasing order of their first motif. Two motifs lie in the
/// same cluster exactly when they are linked.
pub proof fn lemma_clusters_are_ordered_components(adj: spec_fn(int, int) -> bool, n: nat)
    requires
        n <= usize::MAX,
        crate::graph::symmetric(adj),
    ensures
        forall|c: int, d: int|
            0 <= c < d < leaders(adj, n).len() ==> #[trigger] leaders(adj, n)[c] < #[trigger] leaders(adj, n)[d],
        forall|c: int|
            0 <= c < leaders(adj, n).len() ==> {
                let comp = #[trigger] component(adj, n, leaders(adj, n)[c] as int);
                &&& comp.len() >= 1
                &&& comp[0] == leaders(adj, n)[c]
                &&& forall|x: int, y: int| 0 <= x < y < comp.len() ==> comp[x] < comp[y]
                &&& forall|v: usize|
                    comp.contains(v) <==> (v < n && linked(adj, leaders(adj, n)[c] as int, v as int))
            },
        forall|c: int, u: usize, v: usize|
            #![trigger component(adj, n, leaders(adj, n)[c] as int).contains(u), component(adj, n, leaders(adj, n)[c] as int).contains(v)]
            #![trigger component(adj, n, leaders(adj, n)[c] as int).contains(u), linked(adj, u as int, v as int)]
            0 <= c < leaders(adj, n).len() && component(adj, n, leaders(adj, n)[c] as int).contains(u)
                ==> (component(adj, n, leaders(adj, n)[c] as int).contains(v) <==> (v < n && linked(
                adj,
                u as int,
                v as int,
            ))),
{
    lemma_vertices_filter(n, leader_pred(adj));
    assert forall|c: int| 0 <= c < leaders(adj, n).len() implies {
        let comp = #[trigger] component(adj, n, leaders(adj, n)[c] as int);
        &&& comp.len() >= 1
        &&& comp[0] == leaders(adj, n)[c]
        &&& forall|x: int, y: int| 0 <= x < y < comp.len() ==> comp[x] < comp[y]
        &&& forall|v: usize| comp.contains(v) <==> (v < n && linked(adj, leaders(adj, n)[c] as int, v as int))
    } by {
        let r = leaders(adj, n)[c];
        let comp = component(adj, n, r as int);
        lemma_vertices_filter(n, member_pred(adj, r as int));
        vertices(n).lemma_filter_pred(leader_pred(adj), c);
        assert(leaders(adj, n).contains(r));
        crate::graph::lemma_linked_refl(adj, r as int);
        assert(member_pred(adj, r as int)(r));
        assert(comp.contains(r));
        let x = choose|x: int| 0 <= x < comp.len() && comp[x] == r;
        assert(comp.contains(comp[0]));
        assert(member_pred(adj, r as int)(comp[0]));
        if comp[0] < r {
            crate::graph::lemma_linked_symm(adj, r as int, comp[0] as int);
            assert(!linked(adj, comp[0] as int, r as int));
        }
        if x > 0 {
            assert(comp[0] < comp[x]);
        }
    }
    assert forall|c: int, u: usize, v: usize|
        #![trigger component(adj, n, leaders(adj, n)[c] as int).contains(u), component(adj, n, leaders(adj, n)[c] as int).contains(v)]
        #![trigger component(adj, n, leaders(adj, n)[c] as int).contains(u), linked(adj, u as int, v as int)]
        0 <= c < leaders(adj, n).len() && component(adj, n, leaders(adj, n)[c] as int).contains(u)
            implies (component(adj, n, leaders(adj, n)[c] as int).contains(v) <==> (v < n && linked(
            adj,
            u as int,
            v as int,
        ))) by {
        let r = leaders(adj, n)[c] as int;
        lemma_vertices_filter(n, member_pred(adj, r));
        assert(component(adj, n, r).contains(u));
        assert(member_pred(adj, r)(u));
        if component(adj, n, r).contains(v) {
            assert(member_pred(adj, r)(v));
            crate::graph::lemma_linked_symm(adj, r, u as int);
            crate::graph::lemma_linked_trans(adj, u as int, r, v as int);
        }
        if v < n && linked(adj, u as int, v as int) {
            crate::graph::lemma_linked_trans(adj, r, u as int, v as int);
            assert(member_pred(adj, r)(v));
        }
    }
}

/// The pairs at the positions of a filtration order.
pub open spec fn ordered_pairs(pairs: Seq<(usize, usize)>, order: Seq<usize>) -> Seq<(usize, usize)> {
    order.map_values(|k: usize| pairs[k as int])
}

/// When the pair list holds every pair `i < j` of `n` motifs, and a pair's
/// key is within the cut-off exactly when the two motifs are close, the
/// pairs of the filtration order form the proximity graph. So the
/// persistence diagram of `n` motifs has `n` entries, and its essential
/// classes are as many as the components of the proximity relation: as many
/// as the clusters, and as the components of the complex built from it.
pub proof fn lemma_filtration_graph_is_proximity_graph(
    n: nat,
    pairs: Seq<(usize, usize)>,
    keys: Seq<i64>,
    cutoff: i64,
    order: Seq<usize>,
    close: Seq<Vec<bool>>,
)
    requires
        n <= usize::MAX,
        close.len() == n,
        order.len() <= usize::MAX,
        pairs.len() <= usize::MAX,
        pairs.len() == keys.len(),
        forall|k: int| 0 <= k < pairs.len() ==> (#[trigger] pairs[k]).0 < pairs[k].1 < n,
        forall|i: int, j: int| 0 <= i < j < n ==> #[trigger] pairs.contains((i as usize, j as usize)),
        forall|k: int|
            0 <= k < pairs.len() ==> near(close, (#[trigger] pairs[k]).0 as int, pairs[k].1 as int) == (
            keys[k] <= cutoff),
        is_filtration_order(order, keys, cutoff),
    ensures
        edge_adjacency(ordered_pairs(pairs, order)) == proximity_adjacency(close),
        leaders(edge_adjacency(ordered_pairs(pairs, order)), n) == leaders(proximity_adjacency(close), n),
        persistence_diagram(n, ordered_pairs(pairs, order)).len() == n,
        persistence_diagram(n, ordered_pairs(pairs, order)) == merge_positions(ordered_pairs(pairs, order)).map_values(
            dying_class(),
        ) + Seq::new(
            leaders(proximity_adjacency(close), n).len(),
            |i: int| MotivicPersistencePair { dim: 0, death: None },
        ),
{
    let q = ordered_pairs(pairs, order);
    let f = edge_adjacency(q);
    let g = proximity_adjacency(close);
    assert forall|x: int, y: int| #[trigger] f(x, y) == g(x, y) by {
        if f(x, y) {
            let e = choose|e: int| 0 <= e < q.len() && #[trigger] crate::graph::joins(q[e], x, y);
            let k = order[e] as int;
            assert(q[e] == pairs[k]);
            assert(keys[k] <= cutoff);
        }
        if g(x, y) {
            let (i, j) = if x < y {
                (x, y)
            } else {
                (y, x)
            };
            assert(pairs.contains((i as usize, j as usize)));
            let k = choose|k: int| 0 <= k < pairs.len() && pairs[k] == (i as usize, j as usize);
            assert(keys[k] <= cutoff);
            assert(order.contains(k as usize));
            let e = choose|e: int| 0 <= e < order.len() && #[trigger] order[e] == k as usize;
            assert(order[e] as int == k);
            assert(q[e] == pairs[k]);
            assert(crate::graph::joins(q[e], x, y));
        }
    }
    assert(f =~= g);
    assert forall|e: int| 0 <= e < q.len() implies (#[trigger] q[e]).0 < n && q[e].1 < n by {
        assert(q[e] == pairs[order[e] as int]);
    }
    lemma_persistence_accounts_for_every_motif(n, q);
}

} // verus!
