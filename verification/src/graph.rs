use vstd::prelude::*;

verus! {

/// Step `k` of the walk `p` follows an edge.
pub open spec fn step_ok(edge: spec_fn(int, int) -> bool, p: Seq<int>, k: int) -> bool {
    edge(p[k], p[k + 1])
}

/// `p` is a non-empty walk over the nodes `0..n` along `edge`.
pub open spec fn is_path(edge: spec_fn(int, int) -> bool, n: int, p: Seq<int>) -> bool {
    &&& p.len() > 0
    &&& forall|k: int| 0 <= k < p.len() ==> 0 <= #[trigger] p[k] < n
    &&& forall|k: int| 0 <= k < p.len() - 1 ==> #[trigger] step_ok(edge, p, k)
}

/// Some walk over `0..n` along `edge` leads from `a` to `b`.
pub open spec fn reachable(edge: spec_fn(int, int) -> bool, n: int, a: int, b: int) -> bool {
    exists|p: Seq<int>| #[trigger] is_path(edge, n, p) && p[0] == a && p.last() == b
}

/// Every node reaches itself.
pub proof fn lemma_reach_refl(edge: spec_fn(int, int) -> bool, n: int, a: int)
    requires
        0 <= a < n,
    ensures
        reachable(edge, n, a, a),
{
    let p = seq![a];
    assert(is_path(edge, n, p));
}

/// An edge is a walk.
pub proof fn lemma_reach_edge(edge: spec_fn(int, int) -> bool, n: int, a: int, b: int)
    requires
        0 <= a < n,
        0 <= b < n,
        edge(a, b),
    ensures
        reachable(edge, n, a, b),
{
    let p = seq![a, b];
    assert(step_ok(edge, p, 0));
    assert(is_path(edge, n, p));
}

/// Walks compose.
pub proof fn lemma_reach_trans(edge: spec_fn(int, int) -> bool, n: int, a: int, b: int, c: int)
    requires
        reachable(edge, n, a, b),
        reachable(edge, n, b, c),
    ensures
        reachable(edge, n, a, c),
{
    let p = choose|p: Seq<int>| #[trigger] is_path(edge, n, p) && p[0] == a && p.last() == b;
    let q = choose|q: Seq<int>| #[trigger] is_path(edge, n, q) && q[0] == b && q.last() == c;
    let r = p + q.subrange(1, q.len() as int);
    assert forall|k: int| 0 <= k < r.len() implies 0 <= #[trigger] r[k] < n by {
        if k >= p.len() {
            assert(r[k] == q[k - p.len() + 1]);
        }
    }
    assert forall|k: int| 0 <= k < r.len() - 1 implies #[trigger] step_ok(edge, r, k) by {
        if k < p.len() - 1 {
            assert(step_ok(edge, p, k));
        } else if k == p.len() - 1 {
            assert(step_ok(edge, q, 0));
            assert(r[k] == q[0]);
            assert(r[k + 1] == q[1]);
        } else {
            let m = k - p.len() + 1;
            assert(step_ok(edge, q, m));
            assert(r[k] == q[m]);
            assert(r[k + 1] == q[m + 1]);
        }
    }
    assert(is_path(edge, n, r));
    if q.len() == 1 {
        assert(r.last() == p.last());
    } else {
        assert(r.last() == q.last());
    }
}

/// A walk along `e1` is a walk along any `e2` that contains `e1` on `0..n`.
pub proof fn lemma_reach_mono(
    e1: spec_fn(int, int) -> bool,
    e2: spec_fn(int, int) -> bool,
    n: int,
    a: int,
    b: int,
)
    requires
        forall|x: int, y: int| 0 <= x < n && 0 <= y < n && #[trigger] e1(x, y) ==> e2(x, y),
        reachable(e1, n, a, b),
    ensures
        reachable(e2, n, a, b),
{
    let p = choose|p: Seq<int>| #[trigger] is_path(e1, n, p) && p[0] == a && p.last() == b;
    assert forall|k: int| 0 <= k < p.len() - 1 implies #[trigger] step_ok(e2, p, k) by {
        assert(step_ok(e1, p, k));
        assert(0 <= p[k] < n);
        assert(0 <= p[k + 1] < n);
    }
    assert(is_path(e2, n, p));
}

/// A labelling that is constant across every edge is constant along every walk.
pub proof fn lemma_reach_same_label(
    edge: spec_fn(int, int) -> bool,
    n: int,
    label: Seq<int>,
    a: int,
    b: int,
)
    requires
        label.len() == n,
        forall|x: int, y: int|
            0 <= x < n && 0 <= y < n && #[trigger] edge(x, y) ==> label[x] == label[y],
        reachable(edge, n, a, b),
    ensures
        label[a] == label[b],
{
    let p = choose|p: Seq<int>| #[trigger] is_path(edge, n, p) && p[0] == a && p.last() == b;
    lemma_walk_same_label(edge, n, label, p, p.len() - 1);
}

proof fn lemma_walk_same_label(
    edge: spec_fn(int, int) -> bool,
    n: int,
    label: Seq<int>,
    p: Seq<int>,
    k: int,
)
    requires
        label.len() == n,
        forall|x: int, y: int|
            0 <= x < n && 0 <= y < n && #[trigger] edge(x, y) ==> label[x] == label[y],
        is_path(edge, n, p),
        0 <= k < p.len(),
    ensures
        label[p[0]] == label[p[k]],
    decreases k,
{
    if k > 0 {
        lemma_walk_same_label(edge, n, label, p, k - 1);
        assert(step_ok(edge, p, k - 1));
        assert(0 <= p[k - 1] < n);
        assert(0 <= p[k] < n);
    }
}

} // verus!
