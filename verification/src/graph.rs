//! Connectivity in undirected graphs on the vertices `0..n`, and a verified
//! component labelling that the motivic analysis is built on.
use vstd::prelude::*;

verus! {

/// Whether the edge `e` joins `x` and `y`, in either direction.
pub open spec fn joins(e: (usize, usize), x: int, y: int) -> bool {
    (e.0 == x && e.1 == y) || (e.0 == y && e.1 == x)
}

/// Adjacency of the graph whose edges are listed in `edges`.
pub open spec fn edge_adjacency(edges: Seq<(usize, usize)>) -> spec_fn(int, int) -> bool {
    |x: int, y: int| exists|e: int| 0 <= e < edges.len() && #[trigger] joins(edges[e], x, y)
}

/// Adjacency `adj` with the one extra edge `a`-`b`.
pub open spec fn with_edge(adj: spec_fn(int, int) -> bool, a: int, b: int) -> spec_fn(int, int) -> bool {
    |x: int, y: int| adj(x, y) || (x == a && y == b) || (x == b && y == a)
}

/// An adjacency relation that does not depend on direction.
pub open spec fn symmetric(adj: spec_fn(int, int) -> bool) -> bool {
    forall|x: int, y: int| #[trigger] adj(x, y) ==> adj(y, x)
}

/// A non-empty walk: consecutive vertices are adjacent.
pub open spec fn is_walk(adj: spec_fn(int, int) -> bool, p: Seq<int>) -> bool {
    &&& p.len() >= 1
    &&& forall|i: int| 0 <= i < p.len() - 1 ==> #[trigger] adj(p[i], p[i + 1])
}

/// `u` and `v` lie in the same connected component: some walk joins them.
pub open spec fn linked(adj: spec_fn(int, int) -> bool, u: int, v: int) -> bool {
    exists|p: Seq<int>| #[trigger] is_walk(adj, p) && p[0] == u && p.last() == v
}

/// `v` is the least vertex of its connected component.
pub open spec fn is_leader(adj: spec_fn(int, int) -> bool, v: int) -> bool {
    forall|u: int| 0 <= u < v ==> !#[trigger] linked(adj, u, v)
}

/// The vertices `0..n` in increasing order.
pub open spec fn vertices(n: nat) -> Seq<usize> {
    Seq::new(n, |i: int| i as usize)
}

/// Vertices that are the least of their component.
pub open spec fn leader_pred(adj: spec_fn(int, int) -> bool) -> spec_fn(usize) -> bool {
    |v: usize| is_leader(adj, v as int)
}

/// Vertices linked to `r`.
pub open spec fn member_pred(adj: spec_fn(int, int) -> bool, r: int) -> spec_fn(usize) -> bool {
    |v: usize| linked(adj, r, v as int)
}

/// The least vertex of every connected component among `0..n`, in
/// increasing order; there is one per component.
pub open spec fn leaders(adj: spec_fn(int, int) -> bool, n: nat) -> Seq<usize> {
    vertices(n).filter(leader_pred(adj))
}

/// The vertices among `0..n` in the component of `r`, in increasing order.
pub open spec fn component(adj: spec_fn(int, int) -> bool, n: nat, r: int) -> Seq<usize> {
    vertices(n).filter(member_pred(adj, r))
}

/// Every vertex is linked to itself.
pub proof fn lemma_linked_refl(adj: spec_fn(int, int) -> bool, u: int)
    ensures
        linked(adj, u, u),
{
    let p = seq![u];
    assert(is_walk(adj, p));
}

/// Adjacent vertices are linked.
pub proof fn lemma_linked_step(adj: spec_fn(int, int) -> bool, u: int, v: int)
    requires
        adj(u, v),
    ensures
        linked(adj, u, v),
{
    let p = seq![u, v];
    assert(p[0] == u && p[1] == v);
    assert(is_walk(adj, p));
}

/// Linkage is transitive.
pub proof fn lemma_linked_trans(adj: spec_fn(int, int) -> bool, u: int, v: int, w: int)
    requires
        linked(adj, u, v),
        linked(adj, v, w),
    ensures
        linked(adj, u, w),
{
    let p = choose|p: Seq<int>| #[trigger] is_walk(adj, p) && p[0] == u && p.last() == v;
    let q = choose|q: Seq<int>| #[trigger] is_walk(adj, q) && q[0] == v && q.last() == w;
    let r = p + q.drop_first();
    assert forall|i: int| 0 <= i < r.len() - 1 implies #[trigger] adj(r[i], r[i + 1]) by {
        if i < p.len() - 1 {
            assert(r[i] == p[i] && r[i + 1] == p[i + 1]);
        } else if i == p.len() - 1 {
            assert(r[i] == q[0] && r[i + 1] == q[1]);
        } else {
            let j = i - p.len() + 1;
            assert(r[i] == q[j] && r[i + 1] == q[j + 1]);
        }
    }
    assert(is_walk(adj, r));
    if q.len() == 1 {
        assert(r.last() == p.last());
    } else {
        assert(r.last() == q.last());
    }
}

/// Linkage is symmetric when adjacency is.
pub proof fn lemma_linked_symm(adj: spec_fn(int, int) -> bool, u: int, v: int)
    requires
        symmetric(adj),
        linked(adj, u, v),
    ensures
        linked(adj, v, u),
{
    let p = choose|p: Seq<int>| #[trigger] is_walk(adj, p) && p[0] == u && p.last() == v;
    let r = p.reverse();
    assert forall|i: int| 0 <= i < r.len() - 1 implies #[trigger] adj(r[i], r[i + 1]) by {
        let j = p.len() - 2 - i;
        assert(r[i] == p[j + 1] && r[i + 1] == p[j]);
        assert(adj(p[j], p[j + 1]));
    }
    assert(is_walk(adj, r));
}

/// More edges link at least the same vertices.
pub proof fn lemma_linked_mono(
    adj1: spec_fn(int, int) -> bool,
    adj2: spec_fn(int, int) -> bool,
    u: int,
    v: int,
)
    requires
        forall|x: int, y: int| #[trigger] adj1(x, y) ==> adj2(x, y),
        linked(adj1, u, v),
    ensures
        linked(adj2, u, v),
{
    let p = choose|p: Seq<int>| #[trigger] is_walk(adj1, p) && p[0] == u && p.last() == v;
    assert forall|i: int| 0 <= i < p.len() - 1 implies #[trigger] adj2(p[i], p[i + 1]) by {
        assert(adj1(p[i], p[i + 1]));
    }
    assert(is_walk(adj2, p));
}

/// Where a vertex can get to after adding the edge `a`-`b`.
pub open spec fn reach_with_edge(adj: spec_fn(int, int) -> bool, a: int, b: int, u: int, x: int) -> bool {
    ||| linked(adj, u, x)
    ||| linked(adj, u, a) && linked(adj, b, x)
    ||| linked(adj, u, b) && linked(adj, a, x)
}

proof fn lemma_walk_with_edge(adj: spec_fn(int, int) -> bool, a: int, b: int, p: Seq<int>, i: int)
    requires
        symmetric(adj),
        is_walk(with_edge(adj, a, b), p),
        0 <= i < p.len(),
    ensures
        reach_with_edge(adj, a, b, p[0], p[i]),
    decreases i,
{
    let u = p[0];
    if i == 0 {
        lemma_linked_refl(adj, u);
    } else {
        lemma_walk_with_edge(adj, a, b, p, i - 1);
        let x = p[i - 1];
        let y = p[i];
        assert(with_edge(adj, a, b)(p[i - 1], p[(i - 1) + 1]));
        if adj(x, y) {
            lemma_linked_step(adj, x, y);
            if linked(adj, u, x) {
                lemma_linked_trans(adj, u, x, y);
            } else if linked(adj, u, a) && linked(adj, b, x) {
                lemma_linked_trans(adj, b, x, y);
            } else {
                lemma_linked_trans(adj, a, x, y);
            }
        } else if x == a && y == b {
            lemma_linked_refl(adj, b);
        } else {
            lemma_linked_refl(adj, a);
        }
    }
}

/// Adding the edge `a`-`b` links `u` to `v` exactly when they were already
/// linked or one of them reaches `a` and the other `b`.
pub proof fn lemma_linked_with_edge(adj: spec_fn(int, int) -> bool, a: int, b: int, u: int, v: int)
    requires
        symmetric(adj),
    ensures
        linked(with_edge(adj, a, b), u, v) == reach_with_edge(adj, a, b, u, v),
{
    let adj2 = with_edge(adj, a, b);
    if linked(adj2, u, v) {
        let p = choose|p: Seq<int>| #[trigger] is_walk(adj2, p) && p[0] == u && p.last() == v;
        lemma_walk_with_edge(adj, a, b, p, p.len() - 1);
    }
    if reach_with_edge(adj, a, b, u, v) {
        assert forall|x: int, y: int| #[trigger] adj(x, y) implies adj2(x, y) by {}
        assert(adj2(a, b));
        assert(adj2(b, a));
        if linked(adj, u, v) {
            lemma_linked_mono(adj, adj2, u, v);
        } else if linked(adj, u, a) && linked(adj, b, v) {
            lemma_linked_mono(adj, adj2, u, a);
            lemma_linked_mono(adj, adj2, b, v);
            lemma_linked_step(adj2, a, b);
            lemma_linked_trans(adj2, u, a, b);
            lemma_linked_trans(adj2, u, b, v);
        } else {
            lemma_linked_mono(adj, adj2, u, b);
            lemma_linked_mono(adj, adj2, a, v);
            lemma_linked_step(adj2, b, a);
            lemma_linked_trans(adj2, u, b, a);
            lemma_linked_trans(adj2, u, a, v);
        }
    }
}

/// Listing one more edge adds exactly that edge to the adjacency.
pub proof fn lemma_edge_adjacency_extend(s: Seq<(usize, usize)>, k: int)
    requires
        0 <= k < s.len(),
    ensures
        edge_adjacency(s.take(k + 1)) == with_edge(edge_adjacency(s.take(k)), s[k].0 as int, s[k].1 as int),
{
    let t = s.take(k + 1);
    let u = s.take(k);
    let f = edge_adjacency(t);
    let g = with_edge(edge_adjacency(u), s[k].0 as int, s[k].1 as int);
    assert forall|x: int, y: int| #[trigger] f(x, y) == g(x, y) by {
        if f(x, y) {
            let e = choose|e: int| 0 <= e < t.len() && #[trigger] joins(t[e], x, y);
            if e < k {
                assert(joins(u[e], x, y));
            }
        }
        if g(x, y) {
            if edge_adjacency(u)(x, y) {
                let e = choose|e: int| 0 <= e < u.len() && #[trigger] joins(u[e], x, y);
                assert(joins(t[e], x, y));
            } else {
                assert(joins(t[k], x, y));
            }
        }
    }
    assert(f =~= g);
}

/// The adjacency of an edge list is symmetric.
pub proof fn lemma_edge_adjacency_symmetric(s: Seq<(usize, usize)>)
    ensures
        symmetric(edge_adjacency(s)),
{
    assert forall|x: int, y: int| #[trigger] edge_adjacency(s)(x, y) implies edge_adjacency(s)(y, x) by {
        let e = choose|e: int| 0 <= e < s.len() && #[trigger] joins(s[e], x, y);
        assert(joins(s[e], y, x));
    }
}

/// Adding an edge to a symmetric adjacency keeps it symmetric.
pub proof fn lemma_with_edge_symmetric(adj: spec_fn(int, int) -> bool, a: int, b: int)
    requires
        symmetric(adj),
    ensures
        symmetric(with_edge(adj, a, b)),
{
    assert forall|x: int, y: int| #[trigger] with_edge(adj, a, b)(x, y) implies with_edge(adj, a, b)(
        y,
        x,
    ) by {
        if adj(x, y) {
            assert(adj(y, x));
        }
    }
}

/// Without edges every vertex is alone in its component.
pub proof fn lemma_no_edges_linked(u: int, v: int)
    ensures
        linked(edge_adjacency(Seq::<(usize, usize)>::empty()), u, v) == (u == v),
{
    let adj = edge_adjacency(Seq::<(usize, usize)>::empty());
    if linked(adj, u, v) {
        let p = choose|p: Seq<int>| #[trigger] is_walk(adj, p) && p[0] == u && p.last() == v;
        if p.len() > 1 {
            assert(adj(p[0], p[0int + 1]));
        }
    }
    if u == v {
        lemma_linked_refl(adj, u);
    }
}

/// A component labelling of the vertices `0..n`: vertices share a label
/// exactly when they are linked, and each label is the least vertex of its
/// component.
pub open spec fn labels_ok(lab: Seq<usize>, n: nat, adj: spec_fn(int, int) -> bool) -> bool {
    &&& lab.len() == n
    &&& forall|v: int| 0 <= v < n ==> #[trigger] lab[v] <= v
    &&& forall|v: int| 0 <= v < n ==> lab[lab[v] as int] == #[trigger] lab[v]
    &&& forall|u: int, v: int|
        0 <= u < n && 0 <= v < n ==> ((lab[u] == lab[v]) == #[trigger] linked(adj, u, v))
}

/// The label a merge gives to a vertex that had label `l`.
pub open spec fn relabel(l: usize, low: usize, high: usize) -> usize {
    if l == high {
        low
    } else {
        l
    }
}

/// Join the components of `a` and `b` in a component labelling; reports
/// whether they were apart.
pub(crate) fn merge_components(
    lab: &mut Vec<usize>,
    a: usize,
    b: usize,
    Ghost(adj): Ghost<spec_fn(int, int) -> bool>,
) -> (merged: bool)
    requires
        symmetric(adj),
        labels_ok(old(lab)@, old(lab)@.len() as nat, adj),
        a < old(lab)@.len(),
        b < old(lab)@.len(),
    ensures
        final(lab)@.len() == old(lab)@.len(),
        labels_ok(final(lab)@, old(lab)@.len() as nat, with_edge(adj, a as int, b as int)),
        merged == !linked(adj, a as int, b as int),
{
    let n = lab.len();
    let la = lab[a];
    let lb = lab[b];
    let ghost old_lab = lab@;
    let ghost adj2 = with_edge(adj, a as int, b as int);
    assert(linked(adj, a as int, b as int) == (la == lb));
    if la == lb {
        assert forall|u: int, v: int| 0 <= u < n && 0 <= v < n implies ((old_lab[u] == old_lab[v])
            == #[trigger] linked(adj2, u, v)) by {
            lemma_linked_with_edge(adj, a as int, b as int, u, v);
            assert(linked(adj, u, a as int) == (old_lab[u] == old_lab[a as int]));
            assert(linked(adj, b as int, v) == (old_lab[b as int] == old_lab[v]));
            assert(linked(adj, u, b as int) == (old_lab[u] == old_lab[b as int]));
            assert(linked(adj, a as int, v) == (old_lab[a as int] == old_lab[v]));
            assert(linked(adj, u, v) == (old_lab[u] == old_lab[v]));
        }
        return false;
    }
    let low = if la < lb {
        la
    } else {
        lb
    };
    let high = if la < lb {
        lb
    } else {
        la
    };
    let mut v: usize = 0;
    while v < n
        invariant
            0 <= v <= n,
            n == old_lab.len(),
            lab@.len() == n,
            forall|w: int| 0 <= w < v ==> #[trigger] lab@[w] == relabel(old_lab[w], low, high),
            forall|w: int| v <= w < n ==> #[trigger] lab@[w] == old_lab[w],
        decreases n - v,
    {
        if lab[v] == high {
            lab.set(v, low);
        }
        v = v + 1;
    }
    assert(forall|w: int| 0 <= w < n ==> #[trigger] lab@[w] == relabel(old_lab[w], low, high));
    assert(old_lab[low as int] == low);
    assert(old_lab[high as int] == high);
    assert forall|w: int| 0 <= w < n implies lab@[lab@[w] as int] == #[trigger] lab@[w] by {
        let l = old_lab[w];
        assert(old_lab[l as int] == l);
        assert(lab@[w] == relabel(l, low, high));
        assert(lab@[l as int] == relabel(l, low, high));
        assert(lab@[low as int] == low);
    }
    assert forall|u: int, w: int| 0 <= u < n && 0 <= w < n implies ((lab@[u] == lab@[w])
        == #[trigger] linked(adj2, u, w)) by {
        lemma_linked_with_edge(adj, a as int, b as int, u, w);
        assert(lab@[u] == relabel(old_lab[u], low, high));
        assert(lab@[w] == relabel(old_lab[w], low, high));
        assert(linked(adj, u, a as int) == (old_lab[u] == old_lab[a as int]));
        assert(linked(adj, b as int, w) == (old_lab[b as int] == old_lab[w]));
        assert(linked(adj, u, b as int) == (old_lab[u] == old_lab[b as int]));
        assert(linked(adj, a as int, w) == (old_lab[a as int] == old_lab[w]));
        assert(linked(adj, u, w) == (old_lab[u] == old_lab[w]));
    }
    true
}

/// A labelling of the vertices `0..n` by connected component, where each
/// label is the least vertex of its component.
pub fn component_labels(n: usize, edges: &Vec<(usize, usize)>) -> (lab: Vec<usize>)
    requires
        forall|e: int| 0 <= e < edges@.len() ==> (#[trigger] edges@[e]).0 < n && edges@[e].1 < n,
    ensures
        labels_ok(lab@, n as nat, edge_adjacency(edges@)),
{
    let mut lab: Vec<usize> = Vec::new();
    let mut v: usize = 0;
    while v < n
        invariant
            0 <= v <= n,
            lab@.len() == v,
            forall|w: int| 0 <= w < v ==> #[trigger] lab@[w] == w,
        decreases n - v,
    {
        lab.push(v);
        v = v + 1;
    }
    assert(edges@.take(0) =~= Seq::<(usize, usize)>::empty());
    assert forall|u: int, w: int| 0 <= u < n && 0 <= w < n implies ((lab@[u] == lab@[w])
        == #[trigger] linked(edge_adjacency(edges@.take(0)), u, w)) by {
        lemma_no_edges_linked(u, w);
    }
    let m = edges.len();
    let mut k: usize = 0;
    while k < m
        invariant
            0 <= k <= m,
            m == edges@.len(),
            forall|e: int| 0 <= e < edges@.len() ==> (#[trigger] edges@[e]).0 < n && edges@[e].1 < n,
            labels_ok(lab@, n as nat, edge_adjacency(edges@.take(k as int))),
        decreases m - k,
    {
        let (a, b) = edges[k];
        proof {
            lemma_edge_adjacency_symmetric(edges@.take(k as int));
            lemma_edge_adjacency_extend(edges@, k as int);
        }
        merge_components(&mut lab, a, b, Ghost(edge_adjacency(edges@.take(k as int))));
        k = k + 1;
    }
    assert(edges@.take(m as int) =~= edges@);
    lab
}

/// In a component labelling, a vertex keeps its own label exactly when it
/// is the least of its component.
pub proof fn lemma_labels_leader(lab: Seq<usize>, n: nat, adj: spec_fn(int, int) -> bool, v: int)
    requires
        labels_ok(lab, n, adj),
        0 <= v < n,
    ensures
        (lab[v] == v) == is_leader(adj, v),
{
    if lab[v] == v {
        assert forall|u: int| 0 <= u < v implies !#[trigger] linked(adj, u, v) by {
            assert(lab[u] <= u);
        }
    }
    if is_leader(adj, v) {
        let r = lab[v] as int;
        assert(lab[r] == lab[v]);
        assert(linked(adj, r, v));
    }
}

/// In a component labelling, the vertices with the label of a leader `r`
/// are exactly those linked to `r`.
pub proof fn lemma_labels_member(lab: Seq<usize>, n: nat, adj: spec_fn(int, int) -> bool, r: int, v: int)
    requires
        labels_ok(lab, n, adj),
        0 <= r < n,
        0 <= v < n,
        lab[r] == r,
    ensures
        (lab[v] == r) == linked(adj, r, v),
{
    assert((lab[r] == lab[v]) == linked(adj, r, v));
}

/// The least vertex at or above `u` that is linked to `v` (or `v` itself).
pub open spec fn least_linked_from(adj: spec_fn(int, int) -> bool, v: int, u: int) -> int
    decreases v - u,
{
    if u >= v {
        v
    } else if linked(adj, u, v) {
        u
    } else {
        least_linked_from(adj, v, u + 1)
    }
}

/// The least vertex of the component of `v` (for `v >= 0`).
pub open spec fn representative(adj: spec_fn(int, int) -> bool, v: int) -> int {
    least_linked_from(adj, v, 0)
}

proof fn lemma_least_linked_from(adj: spec_fn(int, int) -> bool, v: int, u: int)
    requires
        0 <= u <= v,
    ensures
        u <= least_linked_from(adj, v, u) <= v,
        linked(adj, least_linked_from(adj, v, u), v),
        forall|w: int| u <= w < least_linked_from(adj, v, u) ==> !#[trigger] linked(adj, w, v),
    decreases v - u,
{
    if u == v {
        lemma_linked_refl(adj, v);
    } else if !linked(adj, u, v) {
        lemma_least_linked_from(adj, v, u + 1);
    }
}

/// The representative of `v` is a leader linked to `v`, and no smaller
/// vertex is linked to `v`.
pub proof fn lemma_representative(adj: spec_fn(int, int) -> bool, v: int)
    requires
        0 <= v,
    ensures
        0 <= representative(adj, v) <= v,
        linked(adj, representative(adj, v), v),
        forall|w: int| 0 <= w < representative(adj, v) ==> !#[trigger] linked(adj, w, v),
        is_leader(adj, representative(adj, v)),
{
    lemma_least_linked_from(adj, v, 0);
    let r = representative(adj, v);
    assert forall|w: int| 0 <= w < r implies !#[trigger] linked(adj, w, r) by {
        if linked(adj, w, r) {
            lemma_linked_trans(adj, w, r, v);
        }
    }
}

/// Two leaders linked to a common vertex are the same vertex.
pub proof fn lemma_leader_unique(adj: spec_fn(int, int) -> bool, r1: int, r2: int, x: int)
    requires
        symmetric(adj),
        0 <= r1,
        0 <= r2,
        is_leader(adj, r1),
        is_leader(adj, r2),
        linked(adj, r1, x),
        linked(adj, r2, x),
    ensures
        r1 == r2,
{
    lemma_linked_symm(adj, r2, x);
    lemma_linked_trans(adj, r1, x, r2);
    lemma_linked_symm(adj, r1, r2);
    if r1 < r2 {
        assert(!linked(adj, r1, r2));
    } else if r2 < r1 {
        assert(!linked(adj, r2, r1));
    }
}

/// Filtering the vertices by two predicates that agree on them gives the same result.
pub proof fn lemma_filter_congruent(n: nat, p: spec_fn(usize) -> bool, q: spec_fn(usize) -> bool)
    requires
        n <= usize::MAX,
        forall|v: usize| v < n ==> #[trigger] p(v) == q(v),
    ensures
        vertices(n).filter(p) == vertices(n).filter(q),
    decreases n,
{
    reveal_with_fuel(Seq::<_>::filter, 1);
    if n > 0 {
        lemma_filter_congruent((n - 1) as nat, p, q);
        assert(vertices(n).drop_last() =~= vertices((n - 1) as nat));
        assert(p(vertices(n).last()) == q(vertices(n).last()));
    }
}

/// Filtering the vertices by a predicate that holds of all of them keeps all.
pub proof fn lemma_filter_all(n: nat, p: spec_fn(usize) -> bool)
    requires
        n <= usize::MAX,
        forall|v: usize| v < n ==> #[trigger] p(v),
    ensures
        vertices(n).filter(p).len() == n,
    decreases n,
{
    reveal_with_fuel(Seq::<_>::filter, 1);
    if n > 0 {
        lemma_filter_all((n - 1) as nat, p);
        assert(vertices(n).drop_last() =~= vertices((n - 1) as nat));
        assert(p(vertices(n).last()));
    }
}

/// Removing one vertex from a predicate removes exactly one vertex from the filter.
pub proof fn lemma_filter_remove_one(n: nat, p: spec_fn(usize) -> bool, q: spec_fn(usize) -> bool, m: usize)
    requires
        n <= usize::MAX,
        m < n,
        p(m),
        forall|v: usize| v < n ==> #[trigger] q(v) == (p(v) && v != m),
    ensures
        vertices(n).filter(q).len() + 1 == vertices(n).filter(p).len(),
    decreases n,
{
    reveal_with_fuel(Seq::<_>::filter, 1);
    let k = (n - 1) as nat;
    assert(vertices(n).drop_last() =~= vertices(k));
    assert(vertices(n).last() == k as usize);
    if k == m {
        lemma_filter_congruent(k, p, q);
    } else {
        lemma_filter_remove_one(k, p, q, m);
    }
}

/// Adding an edge inside a component changes no component.
pub proof fn lemma_leaders_edge_within(adj: spec_fn(int, int) -> bool, a: int, b: int, n: nat)
    requires
        n <= usize::MAX,
        symmetric(adj),
        linked(adj, a, b),
    ensures
        leaders(with_edge(adj, a, b), n) == leaders(adj, n),
{
    let adj2 = with_edge(adj, a, b);
    assert forall|u: int, v: int|
        #![trigger linked(adj2, u, v)]
        #![trigger linked(adj, u, v)]
        linked(adj2, u, v) == linked(adj, u, v) by {
        lemma_linked_with_edge(adj, a, b, u, v);
        if linked(adj, u, a) && linked(adj, b, v) {
            lemma_linked_trans(adj, u, a, b);
            lemma_linked_trans(adj, u, b, v);
        }
        if linked(adj, u, b) && linked(adj, a, v) {
            lemma_linked_symm(adj, a, b);
            lemma_linked_trans(adj, u, b, a);
            lemma_linked_trans(adj, u, a, v);
        }
    }
    assert forall|v: usize| v < n implies #[trigger] leader_pred(adj2)(v) == leader_pred(adj)(v) by {
        if is_leader(adj, v as int) {
            assert forall|u: int| 0 <= u < v implies !#[trigger] linked(adj2, u, v as int) by {
                assert(!linked(adj, u, v as int));
            }
        }
        if is_leader(adj2, v as int) {
            assert forall|u: int| 0 <= u < v implies !#[trigger] linked(adj, u, v as int) by {
                assert(!linked(adj2, u, v as int));
            }
        }
    }
    lemma_filter_congruent(n, leader_pred(adj2), leader_pred(adj));
}

/// Adding an edge between two components joins them: the larger of their two
/// leaders stops being a leader, and every other vertex keeps its status.
pub proof fn lemma_leaders_edge_across(adj: spec_fn(int, int) -> bool, a: int, b: int, n: nat)
    requires
        n <= usize::MAX,
        symmetric(adj),
        0 <= a < n,
        0 <= b < n,
        !linked(adj, a, b),
    ensures
        leaders(with_edge(adj, a, b), n).len() + 1 == leaders(adj, n).len(),
{
    let adj2 = with_edge(adj, a, b);
    lemma_representative(adj, a);
    lemma_representative(adj, b);
    let ra = representative(adj, a);
    let rb = representative(adj, b);
    let top = if ra < rb {
        rb
    } else {
        ra
    };
    if ra == rb {
        lemma_linked_symm(adj, ra, a);
        lemma_linked_trans(adj, a, ra, b);
    }
    assert forall|v: usize| v < n implies #[trigger] leader_pred(adj2)(v) == (leader_pred(adj)(v) && v
        != top) by {
        let v = v as int;
        if is_leader(adj2, v) {
            assert forall|u: int| 0 <= u < v implies !#[trigger] linked(adj, u, v) by {
                assert forall|x: int, y: int| #[trigger] adj(x, y) implies adj2(x, y) by {}
                if linked(adj, u, v) {
                    lemma_linked_mono(adj, adj2, u, v);
                }
            }
            if v == top {
                lemma_linked_symm(adj, rb, b);
                lemma_linked_symm(adj, ra, a);
                if top == rb {
                    lemma_linked_with_edge(adj, a, b, ra, rb);
                    assert(linked(adj2, ra, rb));
                } else {
                    lemma_linked_with_edge(adj, a, b, rb, ra);
                    assert(linked(adj2, rb, ra));
                }
            }
        }
        if is_leader(adj, v) && v != top {
            assert forall|u: int| 0 <= u < v implies !#[trigger] linked(adj2, u, v) by {
                lemma_linked_with_edge(adj, a, b, u, v);
                if linked(adj, u, a) && linked(adj, b, v) {
                    lemma_linked_symm(adj, b, v);
                    lemma_leader_unique(adj, v, rb, b);
                    assert(ra <= u);
                }
                if linked(adj, u, b) && linked(adj, a, v) {
                    lemma_linked_symm(adj, a, v);
                    lemma_leader_unique(adj, v, ra, a);
                    assert(rb <= u);
                }
            }
        }
    }
    assert(leader_pred(adj)(top as usize));
    lemma_filter_remove_one(n, leader_pred(adj), leader_pred(adj2), top as usize);
}

/// Without edges every vertex is a leader.
pub proof fn lemma_leaders_no_edges(n: nat)
    requires
        n <= usize::MAX,
    ensures
        leaders(edge_adjacency(Seq::<(usize, usize)>::empty()), n).len() == n,
{
    let adj = edge_adjacency(Seq::<(usize, usize)>::empty());
    assert forall|v: usize| v < n implies #[trigger] leader_pred(adj)(v) by {
        assert forall|u: int| 0 <= u < v implies !#[trigger] linked(adj, u, v as int) by {
            lemma_no_edges_linked(u, v as int);
        }
    }
    lemma_filter_all(n, leader_pred(adj));
}

} // verus!
