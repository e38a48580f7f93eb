use vstd::prelude::*;
use vstd::relations::injective_on;
use vstd::set_lib::{lemma_int_range, lemma_len_subset, lemma_map_size, set_int_range};

use crate::graph::{
    lemma_reach_edge, lemma_reach_mono, lemma_reach_refl, lemma_reach_same_label,
    lemma_reach_trans, reachable,
};

verus! {

/// Nodes `a` and `b` are directly linked. Only the entries of `links` above
/// the diagonal are read: the pair `{a, b}` is decided by `links[min][max]`.
pub open spec fn linked(links: Seq<Vec<bool>>, a: int, b: int) -> bool {
    ||| a < b && links[a]@[b]
    ||| b < a && links[b]@[a]
}

/// The link relation as a graph over the nodes.
pub open spec fn link_graph(links: Seq<Vec<bool>>) -> spec_fn(int, int) -> bool {
    |a: int, b: int| linked(links, a, b)
}

/// `links` is a square matrix.
pub open spec fn square(links: Seq<Vec<bool>>) -> bool {
    forall|i: int| 0 <= i < links.len() ==> #[trigger] links[i]@.len() == links.len()
}

/// Node `x` is listed in one of the groups.
pub open spec fn listed(groups: Seq<Vec<usize>>, x: int) -> bool {
    exists|c: int, k: int|
        0 <= c < groups.len() && 0 <= k < groups[c]@.len() && #[trigger] groups[c]@[k] == x
}

/// `groups` are the connected components of the link graph over
/// `0..links.len()`, each listed in increasing order, and the groups ordered by
/// their smallest member.
pub open spec fn is_component_partition(links: Seq<Vec<bool>>, groups: Seq<Vec<usize>>) -> bool {
    let n = links.len() as int;
    let g = link_graph(links);
    &&& forall|c: int| 0 <= c < groups.len() ==> #[trigger] groups[c]@.len() > 0
    &&& forall|c: int, k: int|
        0 <= c < groups.len() && 0 <= k < groups[c]@.len() ==> #[trigger] groups[c]@[k] < n
    &&& forall|c: int, k1: int, k2: int|
        0 <= c < groups.len() && 0 <= k1 < k2 < groups[c]@.len() ==> #[trigger] groups[c]@[k1]
            < #[trigger] groups[c]@[k2]
    &&& forall|x: int| 0 <= x < n ==> #[trigger] listed(groups, x)
    &&& forall|c1: int, k1: int, c2: int, k2: int|
        0 <= c1 < groups.len() && 0 <= k1 < groups[c1]@.len() && 0 <= c2 < groups.len() && 0 <= k2
            < groups[c2]@.len() ==> (reachable(
            g,
            n,
            #[trigger] groups[c1]@[k1] as int,
            #[trigger] groups[c2]@[k2] as int,
        ) <==> c1 == c2)
    &&& forall|c1: int, c2: int|
        0 <= c1 < c2 < groups.len() ==> #[trigger] groups[c1]@[0] < #[trigger] groups[c2]@[0]
}

/// Links of the pairs `{a, b}` examined before pair `(i, j)`, pairs being
/// visited by their smaller node, then their larger one.
spec fn examined(links: Seq<Vec<bool>>, i: int, j: int) -> spec_fn(int, int) -> bool {
    |a: int, b: int|
        linked(links, a, b) && ({
            let lo = if a < b {
                a
            } else {
                b
            };
            let hi = if a < b {
                b
            } else {
                a
            };
            lo < i || (lo == i && hi < j)
        })
}

/// A disjoint-set forest over `0..n` with path compression.
///
/// `label[x]` is the root of `x`'s tree; `rank` strictly grows from a node to
/// its parent and to its root, which bounds every walk up the forest.
struct UnionFind {
    parent: Vec<usize>,
    label: Ghost<Seq<int>>,
    rank: Ghost<Seq<nat>>,
    max_rank: Ghost<nat>,
}

impl UnionFind {
    spec fn n(&self) -> int {
        self.parent@.len() as int
    }

    spec fn wf(&self) -> bool {
        let n = self.n();
        let label = self.label@;
        let rank = self.rank@;
        &&& label.len() == n
        &&& rank.len() == n
        &&& forall|x: int| 0 <= x < n ==> #[trigger] self.parent@[x] < n
        &&& forall|x: int| 0 <= x < n ==> 0 <= #[trigger] label[x] < n
        &&& forall|x: int| 0 <= x < n ==> label[#[trigger] self.parent@[x] as int] == label[x]
        &&& forall|x: int| 0 <= x < n && #[trigger] self.parent@[x] == x ==> label[x] == x
        &&& forall|x: int| 0 <= x < n ==> self.parent@[#[trigger] label[x]] == label[x]
        &&& forall|x: int|
            0 <= x < n && #[trigger] self.parent@[x] != x ==> rank[self.parent@[x] as int]
                > rank[x]
        &&& forall|x: int| 0 <= x < n && #[trigger] label[x] != x ==> rank[label[x]] > rank[x]
        &&& forall|x: int| 0 <= x < n ==> #[trigger] rank[x] <= self.max_rank@
    }

    /// Every node alone in its own set.
    fn new(n: usize) -> (uf: Self)
        ensures
            uf.wf(),
            uf.n() == n,
            forall|x: int| 0 <= x < n ==> #[trigger] uf.label@[x] == x,
    {
        let mut parent: Vec<usize> = Vec::new();
        let mut i: usize = 0;
        while i < n
            invariant
                i <= n,
                parent@.len() == i,
                forall|x: int| 0 <= x < i ==> #[trigger] parent@[x] == x,
            decreases n - i,
        {
            parent.push(i);
            i = i + 1;
        }
        UnionFind {
            parent,
            label: Ghost(Seq::new(n as nat, |x: int| x)),
            rank: Ghost(Seq::new(n as nat, |x: int| 0nat)),
            max_rank: Ghost(0nat),
        }
    }

    /// The root of `i`'s set; every node passed on the way is re-attached
    /// directly to the root.
    fn find(&mut self, i: usize) -> (r: usize)
        requires
            old(self).wf(),
            i < old(self).n(),
        ensures
            final(self).wf(),
            final(self).n() == old(self).n(),
            final(self).label@ == old(self).label@,
            final(self).rank@ == old(self).rank@,
            final(self).max_rank@ == old(self).max_rank@,
            r == old(self).label@[i as int],
        decreases old(self).max_rank@ - old(self).rank@[i as int],
    {
        let p = self.parent[i];
        if p != i {
            assert(self.rank@[p as int] > self.rank@[i as int]);
            assert(self.rank@[p as int] <= self.max_rank@);
            let root = self.find(p);
            let ghost before = self.parent@;
            self.parent.set(i, root);
            proof {
                let label = self.label@;
                assert(root == label[i as int]);
                assert(label[i as int] != i as int);
                assert forall|x: int| 0 <= x < self.n() implies label[
                    #[trigger] self.parent@[x] as int] == label[x] by {
                    if x != i {
                        assert(self.parent@[x] == before[x]);
                    }
                }
                assert forall|x: int| 0 <= x < self.n() && #[trigger] self.parent@[x] == x implies label[x]
                    == x by {
                    if x != i {
                        assert(before[x] == x);
                    }
                }
                assert forall|x: int| 0 <= x < self.n() implies self.parent@[#[trigger] label[x]]
                    == label[x] by {
                    assert(before[label[x]] == label[x]);
                    if label[x] == i {
                        assert(label[i as int] == i);
                    }
                }
                assert forall|x: int| 0 <= x < self.n() && #[trigger] self.parent@[x] != x implies self.rank@[
                    self.parent@[x] as int] > self.rank@[x] by {
                    if x != i {
                        assert(before[x] != x);
                    }
                }
            }
        }
        self.parent[i]
    }

    /// Makes `rj` the parent of root `ri`; the two sets become one.
    fn link(&mut self, ri: usize, rj: usize)
        requires
            old(self).wf(),
            ri < old(self).n(),
            rj < old(self).n(),
            ri != rj,
            old(self).label@[ri as int] == ri,
            old(self).label@[rj as int] == rj,
        ensures
            final(self).wf(),
            final(self).n() == old(self).n(),
            final(self).label@ == Seq::new(
                old(self).n() as nat,
                |x: int|
                    if old(self).label@[x] == ri {
                        rj as int
                    } else {
                        old(self).label@[x]
                    },
            ),
    {
        let ghost old_parent = self.parent@;
        let ghost label = self.label@;
        let ghost rank = self.rank@;
        let ghost n = self.n();
        assert(old_parent[ri as int] == ri);
        assert(old_parent[rj as int] == rj);
        self.parent.set(ri, rj);
        let ghost new_label = Seq::new(
            n as nat,
            |x: int|
                if label[x] == ri {
                    rj as int
                } else {
                    label[x]
                },
        );
        let ghost new_rank = rank.update(rj as int, rank[ri as int] + rank[rj as int] + 1);
        self.label = Ghost(new_label);
        self.rank = Ghost(new_rank);
        self.max_rank = Ghost(self.max_rank@ + self.max_rank@ + 1);
        proof {
            let parent = self.parent@;
            assert forall|x: int| 0 <= x < n implies #[trigger] parent[x] < n by {
                if x != ri {
                    assert(parent[x] == old_parent[x]);
                }
            }
            assert forall|x: int| 0 <= x < n implies new_label[#[trigger] parent[x] as int]
                == new_label[x] by {
                if x != ri {
                    assert(parent[x] == old_parent[x]);
                    assert(label[old_parent[x] as int] == label[x]);
                }
            }
            assert forall|x: int| 0 <= x < n && #[trigger] parent[x] == x implies new_label[x]
                == x by {
                assert(parent[x] == old_parent[x]);
            }
            assert forall|x: int| 0 <= x < n implies parent[#[trigger] new_label[x]]
                == new_label[x] by {
                assert(old_parent[label[x]] == label[x]);
                if label[x] != ri {
                    assert(parent[label[x]] == old_parent[label[x]]);
                }
            }
            assert forall|x: int| 0 <= x < n && #[trigger] parent[x] != x implies new_rank[
                parent[x] as int] > new_rank[x] by {
                if x != ri {
                    assert(parent[x] == old_parent[x]);
                    assert(old_parent[x] != x);
                    assert(rank[old_parent[x] as int] > rank[x]);
                    assert(x != rj);
                }
            }
            assert forall|x: int| 0 <= x < n && #[trigger] new_label[x] != x implies new_rank[
                new_label[x]] > new_rank[x] by {
                if label[x] == ri {
                    if x != ri {
                        assert(rank[ri as int] > rank[x]);
                    }
                    assert(x != rj);
                } else {
                    assert(label[x] != x);
                    assert(rank[label[x]] > rank[x]);
                    assert(x != rj);
                }
            }
            assert forall|x: int| 0 <= x < n implies #[trigger] new_rank[x] <= self.max_rank@ by {
                assert(rank[x] <= old(self).max_rank@);
            }
        }
    }
}


/// Nodes joined by an edge of `e` have equal labels.
spec fn sound(label: Seq<int>, e: spec_fn(int, int) -> bool, n: int) -> bool {
    forall|a: int, b: int| 0 <= a < n && 0 <= b < n && #[trigger] e(a, b) ==> label[a] == label[b]
}

/// Nodes with equal labels are joined by a walk along `e`.
spec fn complete(label: Seq<int>, e: spec_fn(int, int) -> bool, n: int) -> bool {
    forall|a: int, b: int|
        0 <= a < n && 0 <= b < n && label[a] == label[b] ==> #[trigger] reachable(e, n, a, b)
}

/// Both properties carry over to an edge relation that agrees on `0..n`.
proof fn lemma_transfer(
    label: Seq<int>,
    e1: spec_fn(int, int) -> bool,
    e2: spec_fn(int, int) -> bool,
    n: int,
)
    requires
        forall|a: int, b: int| 0 <= a < n && 0 <= b < n ==> (#[trigger] e1(a, b) <==> e2(a, b)),
        sound(label, e1, n),
        complete(label, e1, n),
    ensures
        sound(label, e2, n),
        complete(label, e2, n),
{
    assert forall|a: int, b: int| 0 <= a < n && 0 <= b < n && label[a] == label[b] implies #[trigger] reachable(
        e2,
        n,
        a,
        b,
    ) by {
        assert(reachable(e1, n, a, b));
        lemma_reach_mono(e1, e2, n, a, b);
    }
    assert forall|a: int, b: int| 0 <= a < n && 0 <= b < n && #[trigger] e2(a, b) implies label[a]
        == label[b] by {
        assert(e1(a, b));
    }
}

/// Adding the edge `{i, j}` and merging the class of `i` into that of `j`
/// keeps both properties.
proof fn lemma_merge(
    label: Seq<int>,
    merged: Seq<int>,
    e1: spec_fn(int, int) -> bool,
    e2: spec_fn(int, int) -> bool,
    n: int,
    i: int,
    j: int,
)
    requires
        label.len() == n,
        merged.len() == n,
        0 <= i < n,
        0 <= j < n,
        forall|a: int, b: int|
            0 <= a < n && 0 <= b < n ==> (#[trigger] e2(a, b) <==> (e1(a, b) || (a == i && b == j)
                || (a == j && b == i))),
        sound(label, e1, n),
        complete(label, e1, n),
        label[i] == label[j] ==> merged == label,
        label[i] != label[j] ==> forall|x: int|
            0 <= x < n ==> #[trigger] merged[x] == if label[x] == label[i] {
                label[j]
            } else {
                label[x]
            },
    ensures
        sound(merged, e2, n),
        complete(merged, e2, n),
{
    assert forall|a: int, b: int| 0 <= a < n && 0 <= b < n && #[trigger] e1(a, b) implies e2(
        a,
        b,
    ) by {}
    assert forall|a: int, b: int| 0 <= a < n && 0 <= b < n && #[trigger] e2(a, b) implies merged[a]
        == merged[b] by {
        if e1(a, b) {
            assert(label[a] == label[b]);
        }
    }
    assert(e2(i, j));
    assert(e2(j, i));
    assert forall|a: int, b: int| 0 <= a < n && 0 <= b < n && merged[a] == merged[b] implies #[trigger] reachable(
        e2,
        n,
        a,
        b,
    ) by {
        if label[a] == label[b] {
            assert(reachable(e1, n, a, b));
            lemma_reach_mono(e1, e2, n, a, b);
        } else {
            assert(label[i] != label[j]);
            if label[a] == label[i] {
                assert(label[b] == label[j]);
                assert(reachable(e1, n, a, i));
                lemma_reach_mono(e1, e2, n, a, i);
                lemma_reach_edge(e2, n, i, j);
                assert(reachable(e1, n, j, b));
                lemma_reach_mono(e1, e2, n, j, b);
                lemma_reach_trans(e2, n, a, i, j);
                lemma_reach_trans(e2, n, a, j, b);
            } else {
                assert(label[a] == label[j]);
                assert(label[b] == label[i]);
                assert(reachable(e1, n, a, j));
                lemma_reach_mono(e1, e2, n, a, j);
                lemma_reach_edge(e2, n, j, i);
                assert(reachable(e1, n, i, b));
                lemma_reach_mono(e1, e2, n, i, b);
                lemma_reach_trans(e2, n, a, j, i);
                lemma_reach_trans(e2, n, a, i, b);
            }
        }
    }
}

/// Joins every linked pair into one set; on return two nodes share a root
/// exactly when a walk along the links joins them.
fn join_linked(links: &Vec<Vec<bool>>) -> (uf: UnionFind)
    requires
        square(links@),
    ensures
        uf.wf(),
        uf.n() == links.len(),
        sound(uf.label@, link_graph(links@), links.len() as int),
        complete(uf.label@, link_graph(links@), links.len() as int),
{
    let n = links.len();
    let mut uf = UnionFind::new(n);
    proof {
        let e = examined(links@, 0, 0);
        assert forall|a: int, b: int| 0 <= a < n && 0 <= b < n && uf.label@[a] == uf.label@[b] implies #[trigger] reachable(
            e,
            n as int,
            a,
            b,
        ) by {
            lemma_reach_refl(e, n as int, a);
        }
    }
    let mut i: usize = 0;
    while i < n
        invariant
            i <= n,
            n == links.len(),
            square(links@),
            uf.wf(),
            uf.n() == n,
            sound(uf.label@, examined(links@, i as int, 0), n as int),
            complete(uf.label@, examined(links@, i as int, 0), n as int),
        decreases n - i,
    {
        let mut j: usize = i + 1;
        proof {
            lemma_transfer(
                uf.label@,
                examined(links@, i as int, 0),
                examined(links@, i as int, j as int),
                n as int,
            );
        }
        while j < n
            invariant
                i < n,
                i < j <= n,
                n == links.len(),
                square(links@),
                uf.wf(),
                uf.n() == n,
                sound(uf.label@, examined(links@, i as int, j as int), n as int),
                complete(uf.label@, examined(links@, i as int, j as int), n as int),
            decreases n - j,
        {
            let ghost label = uf.label@;
            let ghost e1 = examined(links@, i as int, j as int);
            let ghost e2 = examined(links@, i as int, j + 1);
            assert(links@[i as int]@.len() == n);
            if links[i][j] {
                let ri = uf.find(i);
                let rj = uf.find(j);
                if ri != rj {
                    uf.link(ri, rj);
                }
                proof {
                    lemma_merge(label, uf.label@, e1, e2, n as int, i as int, j as int);
                }
            } else {
                proof {
                    lemma_transfer(label, e1, e2, n as int);
                }
            }
            j = j + 1;
        }
        proof {
            lemma_transfer(
                uf.label@,
                examined(links@, i as int, j as int),
                examined(links@, i + 1, 0),
                n as int,
            );
        }
        i = i + 1;
    }
    proof {
        lemma_transfer(uf.label@, examined(links@, n as int, 0), link_graph(links@), n as int);
    }
    uf
}


/// Groups the nodes `0..links.len()` into the connected components of the
/// link graph (single-linkage clustering): each group lists its members in
/// increasing order, and the groups come in the order of their smallest
/// member. Only the entries of `links` above the diagonal are read.
pub fn connected_components(links: &Vec<Vec<bool>>) -> (groups: Vec<Vec<usize>>)
    requires
        square(links@),
    ensures
        is_component_partition(links@, groups@),
{
    let n = links.len();
    let mut uf = join_linked(links);
    let ghost lab = uf.label@;
    let ghost g = link_graph(links@);
    proof {
        assert forall|a: int, b: int| 0 <= a < n && 0 <= b < n implies (lab[a] == lab[b] <==> #[trigger] reachable(
            g,
            n as int,
            a,
            b,
        )) by {
            if reachable(g, n as int, a, b) {
                lemma_reach_same_label(g, n as int, lab, a, b);
            }
        }
    }
    let none = usize::MAX;
    let mut slot: Vec<usize> = Vec::new();
    let mut s: usize = 0;
    while s < n
        invariant
            s <= n,
            slot@.len() == s,
            forall|r: int| 0 <= r < s ==> #[trigger] slot@[r] == none,
        decreases n - s,
    {
        slot.push(none);
        s = s + 1;
    }
    let mut groups: Vec<Vec<usize>> = Vec::new();
    let ghost mut cl: Seq<int> = Seq::empty();
    let mut x: usize = 0;
    while x < n
        invariant
            x <= n,
            n == links.len(),
            none == usize::MAX,
            uf.wf(),
            uf.n() == n,
            uf.label@ == lab,
            forall|a: int, b: int|
                0 <= a < n && 0 <= b < n ==> (lab[a] == lab[b] <==> #[trigger] reachable(
                    g,
                    n as int,
                    a,
                    b,
                )),
            slot@.len() == n,
            groups@.len() <= x,
            groups@.len() == cl.len(),
            forall|c: int| 0 <= c < groups@.len() ==> #[trigger] groups@[c]@.len() > 0,
            forall|c: int, k: int|
                0 <= c < groups@.len() && 0 <= k < groups@[c]@.len() ==> #[trigger] groups@[c]@[k]
                    < x,
            forall|c: int, k: int|
                0 <= c < groups@.len() && 0 <= k < groups@[c]@.len() ==> lab[
                    #[trigger] groups@[c]@[k] as int] == cl[c],
            forall|c: int, k1: int, k2: int|
                0 <= c < groups@.len() && 0 <= k1 < k2 < groups@[c]@.len() ==> #[trigger] groups@[c]@[k1]
                    < #[trigger] groups@[c]@[k2],
            forall|c1: int, c2: int|
                0 <= c1 < groups@.len() && 0 <= c2 < groups@.len() && c1 != c2 ==> #[trigger] cl[c1]
                    != #[trigger] cl[c2],
            forall|y: int|
                0 <= y < x ==> #[trigger] slot@[lab[y]] < groups@.len() && groups@[slot@[
                    lab[y]] as int]@.contains(y as usize),
            forall|r: int|
                0 <= r < n && #[trigger] slot@[r] != none ==> slot@[r] < groups@.len() && cl[slot@[
                    r] as int] == r,
            forall|r: int, c: int|
                0 <= r < n && #[trigger] slot@[r] == none && 0 <= c < groups@.len() ==> #[trigger] cl[c]
                    != r,
            forall|c1: int, c2: int|
                0 <= c1 < c2 < groups@.len() ==> #[trigger] groups@[c1]@[0]
                    < #[trigger] groups@[c2]@[0],
        decreases n - x,
    {
        let root = uf.find(x);
        let k = slot[root];
        let ghost old_groups = groups@;
        let ghost old_slot = slot@;
        if k == none {
            let fresh = groups.len();
            slot.set(root, fresh);
            let mut group: Vec<usize> = Vec::new();
            group.push(x);
            groups.push(group);
            proof {
                cl = cl.push(root as int);
                assert(groups@[fresh as int]@[0] == x);
                assert forall|y: int| 0 <= y < x + 1 implies #[trigger] slot@[lab[y]] < groups@.len()
                    && groups@[slot@[lab[y]] as int]@.contains(y as usize) by {
                    if y < x {
                        assert(old_slot[lab[y]] < old_groups.len());
                        assert(lab[y] != root);
                        assert(groups@[slot@[lab[y]] as int] == old_groups[old_slot[lab[y]] as int]);
                    } else {
                        assert(groups@[fresh as int]@[0] == x);
                    }
                }
                assert forall|c: int, kk: int|
                    0 <= c < groups@.len() && 0 <= kk < groups@[c]@.len() implies lab[
                    #[trigger] groups@[c]@[kk] as int] == cl[c] by {
                    if c < old_groups.len() {
                        assert(groups@[c] == old_groups[c]);
                    }
                }
                assert forall|c1: int, c2: int|
                    0 <= c1 < groups@.len() && 0 <= c2 < groups@.len() && c1 != c2 implies #[trigger] cl[c1]
                    != #[trigger] cl[c2] by {
                    if c1 == fresh {
                        assert(old_slot[root as int] == none);
                    } else if c2 == fresh {
                        assert(old_slot[root as int] == none);
                    }
                }
                assert forall|r: int, c: int|
                    0 <= r < n && #[trigger] slot@[r] == none && 0 <= c < groups@.len() implies #[trigger] cl[c]
                    != r by {
                    assert(r != root);
                    assert(old_slot[r] == none);
                }
            }
        } else {
            let ghost old_group = groups@[k as int]@;
            groups[k].push(x);
            proof {
                assert forall|y: int| 0 <= y < x + 1 implies #[trigger] slot@[lab[y]] < groups@.len()
                    && groups@[slot@[lab[y]] as int]@.contains(y as usize) by {
                    if y < x {
                        let c = slot@[lab[y]] as int;
                        if c == k {
                            let w = choose|w: int| 0 <= w < old_group.len() && old_group[w] == y as usize;
                            assert(groups@[c]@[w] == y as usize);
                        } else {
                            assert(groups@[c] == old_groups[c]);
                        }
                    } else {
                        assert(groups@[k as int]@[old_group.len() as int] == x);
                    }
                }
                assert forall|c: int, kk: int|
                    0 <= c < groups@.len() && 0 <= kk < groups@[c]@.len() implies lab[
                    #[trigger] groups@[c]@[kk] as int] == cl[c] by {
                    if c != k {
                        assert(groups@[c] == old_groups[c]);
                    } else if kk < old_group.len() {
                        assert(groups@[c]@[kk] == old_group[kk]);
                    }
                }
                assert forall|c: int, k1: int, k2: int|
                    0 <= c < groups@.len() && 0 <= k1 < k2 < groups@[c]@.len() implies #[trigger] groups@[c]@[k1]
                    < #[trigger] groups@[c]@[k2] by {
                    if c != k {
                        assert(groups@[c] == old_groups[c]);
                    } else {
                        assert(groups@[c]@[k1] == old_group[k1]);
                        if k2 < old_group.len() {
                            assert(groups@[c]@[k2] == old_group[k2]);
                        }
                    }
                }
                assert forall|c: int, kk: int|
                    0 <= c < groups@.len() && 0 <= kk < groups@[c]@.len() implies #[trigger] groups@[c]@[kk]
                    < x + 1 by {
                    if c != k {
                        assert(groups@[c] == old_groups[c]);
                    } else if kk < old_group.len() {
                        assert(groups@[c]@[kk] == old_group[kk]);
                    }
                }
                assert forall|c1: int, c2: int|
                    0 <= c1 < c2 < groups@.len() implies #[trigger] groups@[c1]@[0]
                    < #[trigger] groups@[c2]@[0] by {
                    assert(groups@[c1]@[0] == old_groups[c1]@[0]);
                    assert(groups@[c2]@[0] == old_groups[c2]@[0]);
                }
            }
        }
        x = x + 1;
    }
    proof {
        assert forall|y: int| 0 <= y < n implies #[trigger] listed(groups@, y) by {
            let c = slot@[lab[y]] as int;
            let w = choose|w: int| 0 <= w < groups@[c]@.len() && groups@[c]@[w] == y as usize;
            assert(groups@[c]@[w] == y);
        }
        assert forall|c1: int, k1: int, c2: int, k2: int|
            0 <= c1 < groups@.len() && 0 <= k1 < groups@[c1]@.len() && 0 <= c2 < groups@.len() && 0
                <= k2 < groups@[c2]@.len() implies (reachable(
            g,
            n as int,
            #[trigger] groups@[c1]@[k1] as int,
            #[trigger] groups@[c2]@[k2] as int,
        ) <==> c1 == c2) by {
            let a = groups@[c1]@[k1] as int;
            let b = groups@[c2]@[k2] as int;
            assert(lab[a] == cl[c1]);
            assert(lab[b] == cl[c2]);
            if c1 != c2 {
                assert(cl[c1] != cl[c2]);
            }
        }
    }
    groups
}

/// In a component partition no node is listed twice, and directly linked
/// nodes are listed in the same group.
pub proof fn lemma_partition_disjoint_and_closed(
    links: Seq<Vec<bool>>,
    groups: Seq<Vec<usize>>,
    c1: int,
    k1: int,
    c2: int,
    k2: int,
)
    requires
        is_component_partition(links, groups),
        0 <= c1 < groups.len(),
        0 <= k1 < groups[c1]@.len(),
        0 <= c2 < groups.len(),
        0 <= k2 < groups[c2]@.len(),
    ensures
        groups[c1]@[k1] == groups[c2]@[k2] ==> c1 == c2,
        linked(links, groups[c1]@[k1] as int, groups[c2]@[k2] as int) ==> c1 == c2,
{
    let n = links.len() as int;
    let a = groups[c1]@[k1] as int;
    let b = groups[c2]@[k2] as int;
    assert(a < n && b < n);
    if a == b {
        lemma_reach_refl(link_graph(links), n, a);
    }
    if linked(links, a, b) {
        lemma_reach_edge(link_graph(links), n, a, b);
    }
}

/// Group `c` of `groups` lists node `x`.
pub open spec fn in_group(groups: Seq<Vec<usize>>, c: int, x: int) -> bool {
    exists|k: int| 0 <= k < groups[c]@.len() && #[trigger] groups[c]@[k] == x
}

/// The group that lists node `x`.
pub open spec fn group_of(groups: Seq<Vec<usize>>, x: int) -> int {
    choose|c: int| 0 <= c < groups.len() && #[trigger] in_group(groups, c, x)
}

/// Every node of group `inner` is listed in group `outer`.
pub open spec fn within(inner: Vec<usize>, outer: Vec<usize>) -> bool {
    forall|k: int| 0 <= k < inner@.len() ==> outer@.contains(#[trigger] inner@[k])
}

/// Group `inner` lies within one of `groups`.
pub open spec fn within_one(inner: Vec<usize>, groups: Seq<Vec<usize>>) -> bool {
    exists|c: int| 0 <= c < groups.len() && #[trigger] within(inner, groups[c])
}

/// Adding links only merges components: where every link of `l1` is a link
/// of `l2`, each group of the components of `l1` lies within one group of the
/// components of `l2`, and there are no more groups under `l2` than under
/// `l1`.
pub proof fn lemma_more_links_coarser(
    l1: Seq<Vec<bool>>,
    l2: Seq<Vec<bool>>,
    g1: Seq<Vec<usize>>,
    g2: Seq<Vec<usize>>,
)
    requires
        l1.len() == l2.len(),
        forall|a: int, b: int| 0 <= a < b < l1.len() && #[trigger] l1[a]@[b] ==> l2[a]@[b],
        is_component_partition(l1, g1),
        is_component_partition(l2, g2),
    ensures
        forall|c1: int| 0 <= c1 < g1.len() ==> #[trigger] within_one(g1[c1], g2),
        g2.len() <= g1.len(),
{
    let n = l1.len() as int;
    let e1 = link_graph(l1);
    let e2 = link_graph(l2);
    assert forall|a: int, b: int| 0 <= a < n && 0 <= b < n && #[trigger] e1(a, b) implies e2(a, b) by {
        if a < b {
            assert(l1[a]@[b]);
        } else {
            assert(l1[b]@[a]);
        }
    }
    assert forall|c1: int| 0 <= c1 < g1.len() implies #[trigger] within_one(g1[c1], g2) by {
        let x = g1[c1]@[0] as int;
        assert(x < n);
        assert(listed(g2, x));
        let (c2, k2) = choose|c2: int, k2: int|
            0 <= c2 < g2.len() && 0 <= k2 < g2[c2]@.len() && #[trigger] g2[c2]@[k2] == x;
        assert forall|k: int| 0 <= k < g1[c1]@.len() implies g2[c2]@.contains(#[trigger] g1[c1]@[k]) by {
            let y = g1[c1]@[k] as int;
            assert(y < n);
            assert(reachable(e1, n, g1[c1]@[0] as int, g1[c1]@[k] as int));
            lemma_reach_mono(e1, e2, n, x, y);
            assert(listed(g2, y));
            let (c3, k3) = choose|c3: int, k3: int|
                0 <= c3 < g2.len() && 0 <= k3 < g2[c3]@.len() && #[trigger] g2[c3]@[k3] == y;
            assert(reachable(e2, n, g2[c2]@[k2] as int, g2[c3]@[k3] as int));
            assert(c3 == c2);
            assert(g2[c2]@[k3] == g1[c1]@[k]);
        }
        assert(within(g1[c1], g2[c2]));
    }
    let f = |c: int| group_of(g1, g2[c]@[0] as int);
    let dom = set_int_range(0, g2.len() as int);
    let range = set_int_range(0, g1.len() as int);
    assert forall|c: int| 0 <= c < g2.len() implies 0 <= #[trigger] f(c) < g1.len() && in_group(
        g1,
        f(c),
        g2[c]@[0] as int,
    ) by {
        let x = g2[c]@[0] as int;
        assert(x < n);
        assert(listed(g1, x));
        let (c1, k1) = choose|c1: int, k1: int|
            0 <= c1 < g1.len() && 0 <= k1 < g1[c1]@.len() && #[trigger] g1[c1]@[k1] == x;
        assert(in_group(g1, c1, x));
    }
    assert forall|a: int, b: int| dom.contains(a) && dom.contains(b) && #[trigger] f(a) == #[trigger] f(
        b,
    ) implies a == b by {
        let c1 = f(a);
        assert(in_group(g1, c1, g2[a]@[0] as int));
        assert(in_group(g1, c1, g2[b]@[0] as int));
        let ka = choose|k: int| 0 <= k < g1[c1]@.len() && #[trigger] g1[c1]@[k] == g2[a]@[0];
        let kb = choose|k: int| 0 <= k < g1[c1]@.len() && #[trigger] g1[c1]@[k] == g2[b]@[0];
        assert(reachable(e1, n, g1[c1]@[ka] as int, g1[c1]@[kb] as int));
        lemma_reach_mono(e1, e2, n, g2[a]@[0] as int, g2[b]@[0] as int);
        assert(reachable(e2, n, g2[a]@[0] as int, g2[b]@[0] as int));
    }
    assert(injective_on(f, dom));
    lemma_int_range(0, g2.len() as int);
    lemma_int_range(0, g1.len() as int);
    let image = dom.map(f);
    lemma_map_size(dom, image, f);
    assert forall|y: int| image.contains(y) implies range.contains(y) by {
        let c = choose|c: int| dom.contains(c) && f(c) == y;
        assert(0 <= f(c) < g1.len());
    }
    lemma_len_subset(image, range);
}

} // verus!
