//! Density-based clustering of obstacle points over precomputed neighbourhoods.
//!
//! The neighbour lists come from a radius search (`neighbors[i]` holds every
//! point within the clustering radius of point `i`, itself included); what is
//! decided here is which points are core points, how clusters grow from them
//! and which points are left as noise.

use vstd::prelude::*;
use vstd::set_lib::{lemma_int_range, lemma_len_subset, set_int_range};
use std::collections::VecDeque;

verus! {

/// Point `i` has at least `min_points` neighbours (itself included).
pub open spec fn is_core(nb: Seq<Vec<usize>>, min_points: usize, i: int) -> bool {
    nb[i]@.len() >= min_points
}

/// Point `j` lies in the neighbourhood of point `c`.
pub open spec fn is_neighbor(nb: Seq<Vec<usize>>, c: int, j: int) -> bool {
    nb[c]@.contains(j as usize)
}

/// Every neighbour index names a point.
pub open spec fn neighbor_indices_valid(nb: Seq<Vec<usize>>) -> bool {
    forall|i: int, k: int| 0 <= i < nb.len() && 0 <= k < nb[i]@.len() ==> (#[trigger] nb[i]@[k]) < nb.len()
}

/// The neighbourhood relation is symmetric, as a radius search gives it.
pub open spec fn neighbors_symmetric(nb: Seq<Vec<usize>>) -> bool {
    forall|i: int, j: int|
        0 <= i < nb.len() && 0 <= j < nb.len() && #[trigger] is_neighbor(nb, i, j) ==> #[trigger] is_neighbor(nb, j, i)
}

spec fn label_is(labels: Seq<Option<u32>>, x: int, k: int) -> bool {
    labels[x] is Some && labels[x]->0 as int == k
}

/// Member `x` of cluster `k` is a core point or a neighbour of a core point of `k`.
spec fn reachable_in(nb: Seq<Vec<usize>>, min_points: usize, labels: Seq<Option<u32>>, x: int, k: int) -> bool {
    is_core(nb, min_points, x) || exists|c: int|
        0 <= c < nb.len() && is_core(nb, min_points, c) && label_is(labels, c, k) && #[trigger] is_neighbor(nb, c, x)
}

/// Under a symmetric neighbourhood, core neighbours of a clustered core point
/// with a label below `bound` carry the same label.
spec fn closed_below(nb: Seq<Vec<usize>>, min_points: usize, labels: Seq<Option<u32>>, bound: int) -> bool {
    neighbors_symmetric(nb) ==> forall|c: int, j: int|
        0 <= c < nb.len() && 0 <= j < nb.len() && is_core(nb, min_points, c) && is_core(nb, min_points, j)
            && labels[c] is Some && (labels[c]->0 as int) < bound && #[trigger] is_neighbor(nb, c, j)
            ==> labels[j] == labels[c]
}

/// Every neighbour of a core point in one of the clusters below `bound` is
/// in a cluster too, one numbered no higher than that core point's.
spec fn neighbors_settled_below(nb: Seq<Vec<usize>>, min_points: usize, labels: Seq<Option<u32>>, bound: int) -> bool {
    forall|c: int, x: int| 0 <= c < nb.len() && 0 <= x < nb.len() && is_core(nb, min_points, c) && labels[c] is Some
        && labels[c]->0 < bound && #[trigger] is_neighbor(nb, c, x)
        ==> labels[x] is Some && labels[x]->0 <= labels[c]->0
}

/// Cluster `k` has a core point among its members.
spec fn cluster_has_core(nb: Seq<Vec<usize>>, min_points: usize, labels: Seq<Option<u32>>, k: int) -> bool {
    exists|x: int| 0 <= x < nb.len() && is_core(nb, min_points, x) && #[trigger] label_is(labels, x, k)
}

spec fn visited_set_matches(visited: Seq<bool>, vis: Set<int>) -> bool {
    &&& forall|x: int| 0 <= x < visited.len() ==> (visited[x] <==> #[trigger] vis.contains(x))
    &&& vis.subset_of(set_int_range(0, visited.len() as int))
}

pub(crate) proof fn lemma_visit_grows(vis: Set<int>, x: int, n: int)
    requires
        0 <= x < n,
        !vis.contains(x),
        vis.subset_of(set_int_range(0, n)),
    ensures
        vis.insert(x).subset_of(set_int_range(0, n)),
        vis.insert(x).len() == vis.len() + 1,
        vis.insert(x).len() <= n,
{
    lemma_int_range(0, n);
    lemma_len_subset(vis, set_int_range(0, n));
    lemma_len_subset(vis.insert(x), set_int_range(0, n));
}

/// Step `i` of `path` goes from a point to one of its neighbours.
pub open spec fn path_step(nb: Seq<Vec<usize>>, path: Seq<int>, i: int) -> bool {
    is_neighbor(nb, path[i], path[i + 1])
}

/// `path` is a non-empty walk through core points, each step going from a
/// core point to one of its neighbours.
pub open spec fn core_path(nb: Seq<Vec<usize>>, min_points: usize, path: Seq<int>) -> bool {
    &&& path.len() > 0
    &&& forall|i: int| 0 <= i < path.len() ==> 0 <= #[trigger] path[i] < nb.len() && is_core(nb, min_points, path[i])
    &&& forall|i: int| 0 <= i < path.len() - 1 ==> #[trigger] path_step(nb, path, i)
}

/// Core point `x` is reached from core point `s` by a walk through core
/// points that all carry label `k`.
spec fn linked_in(nb: Seq<Vec<usize>>, min_points: usize, labels: Seq<Option<u32>>, k: int, s: int, x: int) -> bool {
    exists|path: Seq<int>| #[trigger] core_path(nb, min_points, path) && path[0] == s && path.last() == x
        && forall|i: int| 0 <= i < path.len() ==> #[trigger] label_is(labels, path[i], k)
}

proof fn lemma_linked_self(nb: Seq<Vec<usize>>, min_points: usize, labels: Seq<Option<u32>>, k: int, s: int)
    requires
        0 <= s < nb.len(),
        is_core(nb, min_points, s),
        label_is(labels, s, k),
    ensures
        linked_in(nb, min_points, labels, k, s, s),
{
    let path = seq![s];
    assert(path[0] == s);
    assert(core_path(nb, min_points, path));
}

/// A walk that keeps its labels when labels are only added.
proof fn lemma_linked_mono(
    nb: Seq<Vec<usize>>,
    min_points: usize,
    l0: Seq<Option<u32>>,
    l1: Seq<Option<u32>>,
    k: int,
    s: int,
    x: int,
)
    requires
        linked_in(nb, min_points, l0, k, s, x),
        forall|y: int| 0 <= y < nb.len() && #[trigger] label_is(l0, y, k) ==> label_is(l1, y, k),
    ensures
        linked_in(nb, min_points, l1, k, s, x),
{
    let path = choose|path: Seq<int>| #[trigger] core_path(nb, min_points, path) && path[0] == s && path.last() == x
        && forall|i: int| 0 <= i < path.len() ==> #[trigger] label_is(l0, path[i], k);
    assert forall|i: int| 0 <= i < path.len() implies #[trigger] label_is(l1, path[i], k) by {
        assert(label_is(l0, path[i], k));
    }
}

/// A walk extended by one step to a core neighbour with the same label.
proof fn lemma_linked_extend(
    nb: Seq<Vec<usize>>,
    min_points: usize,
    labels: Seq<Option<u32>>,
    k: int,
    s: int,
    c: int,
    j: int,
)
    requires
        linked_in(nb, min_points, labels, k, s, c),
        0 <= j < nb.len(),
        is_core(nb, min_points, j),
        is_neighbor(nb, c, j),
        label_is(labels, j, k),
    ensures
        linked_in(nb, min_points, labels, k, s, j),
{
    let path = choose|path: Seq<int>| #[trigger] core_path(nb, min_points, path) && path[0] == s && path.last() == c
        && forall|i: int| 0 <= i < path.len() ==> #[trigger] label_is(labels, path[i], k);
    let longer = path.push(j);
    assert forall|i: int| 0 <= i < longer.len() implies 0 <= #[trigger] longer[i] < nb.len()
        && is_core(nb, min_points, longer[i]) && label_is(labels, longer[i], k) by {
        if i < path.len() {
            assert(longer[i] == path[i]);
            assert(label_is(labels, path[i], k));
        }
    }
    assert forall|i: int| 0 <= i < longer.len() - 1 implies #[trigger] path_step(nb, longer, i) by {
        if i < path.len() - 1 {
            assert(path_step(nb, path, i));
            assert(longer[i] == path[i] && longer[i + 1] == path[i + 1]);
        } else {
            assert(longer[i] == c && longer[i + 1] == j);
        }
    }
    assert(core_path(nb, min_points, longer));
    assert(longer[0] == s && longer.last() == j);
}

fn filled<T: Copy>(value: T, n: usize) -> (v: Vec<T>)
    ensures
        v@.len() == n,
        forall|i: int| 0 <= i < n ==> v@[i] == value,
{
    let mut v: Vec<T> = Vec::new();
    while v.len() < n
        invariant
            v@.len() <= n,
            forall|i: int| 0 <= i < v@.len() ==> v@[i] == value,
        decreases n - v@.len(),
    {
        v.push(value);
    }
    v
}

/// DBSCAN labels: `Some(k)` for members of cluster `k`, `None` for noise.
fn dbscan_labels(neighbors: &Vec<Vec<usize>>, min_points: usize) -> (r: (Vec<Option<u32>>, u32))
    requires
        neighbor_indices_valid(neighbors@),
        neighbors@.len() <= u32::MAX,
    ensures
        r.0@.len() == neighbors@.len(),
        forall|x: int| 0 <= x < neighbors@.len() && r.0@[x] is Some ==> (#[trigger] r.0@[x])->0 < r.1,
        forall|x: int| 0 <= x < neighbors@.len() && is_core(neighbors@, min_points, x) ==> (#[trigger] r.0@[x]) is Some,
        forall|x: int, k: int| 0 <= x < neighbors@.len() && #[trigger] label_is(r.0@, x, k)
            ==> reachable_in(neighbors@, min_points, r.0@, x, k),
        closed_below(neighbors@, min_points, r.0@, r.1 as int),
        forall|k: int| 0 <= k < r.1 ==> #[trigger] cluster_has_core(neighbors@, min_points, r.0@, k),
        forall|x: int, y: int| 0 <= x < neighbors@.len() && 0 <= y < neighbors@.len()
            && is_core(neighbors@, min_points, x) && is_core(neighbors@, min_points, y)
            && #[trigger] r.0@[x] is Some && #[trigger] r.0@[y] is Some && r.0@[x]->0 < r.0@[y]->0
            ==> exists|c: int| 0 <= c < y && is_core(neighbors@, min_points, c) && label_is(r.0@, c, r.0@[x]->0 as int),
        forall|c: int, j: int| 0 <= c < neighbors@.len() && 0 <= j < neighbors@.len() && is_core(neighbors@, min_points, c)
            && #[trigger] is_neighbor(neighbors@, c, j) ==> r.0@[j] is Some && r.0@[c] is Some && r.0@[j]->0 <= r.0@[c]->0,
        forall|k: int, s: int, x: int| 0 <= s < neighbors@.len() && 0 <= x < neighbors@.len()
            && is_core(neighbors@, min_points, s) && is_core(neighbors@, min_points, x)
            && #[trigger] label_is(r.0@, x, k) && #[trigger] label_is(r.0@, s, k)
            && (forall|c: int| 0 <= c < s && is_core(neighbors@, min_points, c) ==> !label_is(r.0@, c, k))
            ==> linked_in(neighbors@, min_points, r.0@, k, s, x),
{
    let n = neighbors.len();
    let ghost nb = neighbors@;
    let mut labels: Vec<Option<u32>> = filled(None, n);
    let mut visited: Vec<bool> = filled(false, n);
    let ghost mut vis: Set<int> = Set::empty();
    let mut cluster_id: u32 = 0;
    let ghost mut seeds: Seq<int> = Seq::empty();
    let mut i: usize = 0;
    while i < n
        invariant
            n == nb.len(),
            nb == neighbors@,
            n <= u32::MAX,
            neighbor_indices_valid(nb),
            i <= n,
            cluster_id as int <= i,
            seeds.len() == cluster_id,
            forall|k: int| 0 <= k < cluster_id ==> 0 <= #[trigger] seeds[k] < i && is_core(nb, min_points, seeds[k])
                && label_is(labels@, seeds[k], k),
            forall|a: int, b: int| 0 <= a < b < cluster_id ==> seeds[a] < seeds[b],
            forall|x: int| 0 <= x < n && is_core(nb, min_points, x) && #[trigger] labels@[x] is Some
                ==> seeds[labels@[x]->0 as int] <= x,
            forall|j: int| 0 <= j < n && visited@[j] && #[trigger] labels@[j] is None ==> j < i,
            neighbors_settled_below(nb, min_points, labels@, cluster_id as int),
            labels@.len() == n,
            visited@.len() == n,
            visited_set_matches(visited@, vis),
            forall|x: int| 0 <= x < n && labels@[x] is Some ==> visited@[x] && (#[trigger] labels@[x])->0 < cluster_id,
            forall|x: int| 0 <= x < n && visited@[x] && is_core(nb, min_points, x) ==> (#[trigger] labels@[x]) is Some,
            forall|x: int| 0 <= x < i ==> #[trigger] visited@[x],
            forall|x: int, k: int| 0 <= x < n && #[trigger] label_is(labels@, x, k)
                ==> reachable_in(nb, min_points, labels@, x, k),
            closed_below(nb, min_points, labels@, cluster_id as int),
            forall|k: int| 0 <= k < cluster_id ==> #[trigger] cluster_has_core(nb, min_points, labels@, k),
            forall|x: int, k: int| 0 <= x < n && is_core(nb, min_points, x) && #[trigger] label_is(labels@, x, k)
                && 0 <= k < cluster_id ==> linked_in(nb, min_points, labels@, k, seeds[k], x),
        decreases n - i,
    {
        if visited[i] {
            i = i + 1;
            continue;
        }
        visited.set(i, true);
        proof {
            lemma_visit_grows(vis, i as int, n as int);
            vis = vis.insert(i as int);
        }
        let nbrs = &neighbors[i];
        if nbrs.len() < min_points {
            i = i + 1;
            continue;
        }
        let ghost cid = cluster_id as int;
        let ghost seed = i as int;
        let ghost before = labels@;
        labels.set(i, Some(cluster_id));
        proof {
            assert(label_is(labels@, seed, cid));
            lemma_linked_self(nb, min_points, labels@, cid, seed);
            assert forall|x: int, k: int| 0 <= x < n && is_core(nb, min_points, x) && #[trigger] label_is(labels@, x, k)
                && 0 <= k < cid implies linked_in(nb, min_points, labels@, k, seeds[k], x) by {
                assert(label_is(before, x, k));
                assert forall|y: int| 0 <= y < nb.len() && #[trigger] label_is(before, y, k) implies label_is(labels@, y, k) by {
                    assert(y != seed);
                }
                lemma_linked_mono(nb, min_points, before, labels@, k, seeds[k], x);
            }
            assert forall|x: int| 0 <= x < n && is_core(nb, min_points, x) && #[trigger] label_is(labels@, x, cid)
                implies linked_in(nb, min_points, labels@, cid, seed, x) by {
                assert(x == seed);
            }
            assert forall|x: int, k: int| 0 <= x < n && #[trigger] label_is(labels@, x, k)
                implies reachable_in(nb, min_points, labels@, x, k) by {
                if x != seed {
                    assert(label_is(before, x, k));
                    if !is_core(nb, min_points, x) {
                        let c = choose|c: int| 0 <= c < nb.len() && is_core(nb, min_points, c)
                            && label_is(before, c, k) && #[trigger] is_neighbor(nb, c, x);
                        assert(label_is(labels@, c, k));
                    }
                }
            }
            assert forall|k: int| 0 <= k < cluster_id implies #[trigger] cluster_has_core(nb, min_points, labels@, k) by {
                assert(cluster_has_core(nb, min_points, before, k));
                let x = choose|x: int| 0 <= x < nb.len() && is_core(nb, min_points, x) && #[trigger] label_is(before, x, k);
                assert(label_is(labels@, x, k));
            }
            assert(before[seed] is None);
            assert forall|k: int| 0 <= k < cluster_id implies 0 <= #[trigger] seeds[k] < i && is_core(nb, min_points, seeds[k])
                && label_is(labels@, seeds[k], k) by {
                assert(label_is(before, seeds[k], k));
            }
            assert forall|x: int| 0 <= x < n && is_core(nb, min_points, x) && #[trigger] labels@[x] is Some
                && labels@[x]->0 < cid implies seeds[labels@[x]->0 as int] <= x by {
                assert(before[x] is Some);
            }
            assert forall|x: int| 0 <= x < n && visited@[x] && #[trigger] labels@[x] is None implies x < seed by {
                assert(before[x] is None);
            }
            assert forall|c: int, x: int| 0 <= c < n && 0 <= x < n && is_core(nb, min_points, c) && labels@[c] is Some
                && labels@[c]->0 < cid && #[trigger] is_neighbor(nb, c, x)
                implies labels@[x] is Some && labels@[x]->0 <= labels@[c]->0 by {
                assert(before[c] is Some);
                assert(before[x] is Some);
            }
        }
        let mut queue: VecDeque<usize> = VecDeque::new();
        let mut t: usize = 0;
        while t < nbrs.len()
            invariant
                n == nb.len(),
                nb == neighbors@,
                neighbor_indices_valid(nb),
                0 <= seed < n,
                seed == i,
                *nbrs == nb[seed],
                t <= nbrs@.len(),
                forall|q: int| 0 <= q < queue@.len() ==> (#[trigger] queue@[q]) < n && is_neighbor(nb, seed, queue@[q] as int),
                forall|s: int| 0 <= s < t ==> nbrs@[s] == seed || queue@.contains(#[trigger] nbrs@[s]),
            decreases nbrs@.len() - t,
        {
            let x = nbrs[t];
            let ghost q0 = queue@;
            if x != i {
                queue.push_back(x);
                proof {
                    assert(queue@[queue@.len() - 1] == x);
                    assert(queue@.contains(nbrs@[t as int]));
                    assert forall|s: int| 0 <= s < t implies nbrs@[s] == seed || queue@.contains(#[trigger] nbrs@[s]) by {
                        if nbrs@[s] != seed {
                            let w = choose|w: int| 0 <= w < q0.len() && q0[w] == nbrs@[s];
                            assert(queue@[w] == nbrs@[s]);
                        }
                    }
                }
            }
            proof {
                assert(nb[seed]@.contains(x));
                assert forall|s: int| 0 <= s < t + 1 implies nbrs@[s] == seed || queue@.contains(#[trigger] nbrs@[s]) by {
                    if s == t {
                        if x != i {
                            assert(queue@[queue@.len() - 1] == x);
                            assert(queue@.contains(x));
                            assert(nbrs@[s] == x);
                        } else {
                            assert(nbrs@[s] == x);
                            assert(x as int == seed);
                        }
                    } else if nbrs@[s] != seed && x != i {
                        let w = choose|w: int| 0 <= w < q0.len() && q0[w] == nbrs@[s];
                        assert(queue@[w] == nbrs@[s]);
                    }
                }
            }
            t = t + 1;
        }
        proof {
            assert forall|q: int| 0 <= q < queue@.len() implies (#[trigger] queue@[q]) < n && exists|c: int|
                0 <= c < n && is_core(nb, min_points, c) && label_is(labels@, c, cid) && is_neighbor(nb, c, queue@[q] as int) by {
                assert(is_neighbor(nb, seed, queue@[q] as int));
            }
            assert forall|c: int, j: int|
                0 <= c < n && 0 <= j < n && is_core(nb, min_points, c) && label_is(labels@, c, cid)
                    && #[trigger] is_neighbor(nb, c, j) implies labels@[j] is Some || queue@.contains(j as usize) by {
                assert(c == seed);
                let s = choose|s: int| 0 <= s < nbrs@.len() && nbrs@[s] == j as usize;
                assert(nbrs@[s] == seed || queue@.contains(nbrs@[s]));
            }
        }
        loop
            invariant
                n == nb.len(),
                nb == neighbors@,
                n <= u32::MAX,
                neighbor_indices_valid(nb),
                i < n,
                seed == i,
                cid == cluster_id,
                cluster_id as int <= i,
                labels@.len() == n,
                visited@.len() == n,
                visited_set_matches(visited@, vis),
                label_is(labels@, seed, cid),
                visited@[seed],
                is_core(nb, min_points, seed),
                forall|x: int| 0 <= x < n && labels@[x] is Some ==> visited@[x] && (#[trigger] labels@[x])->0 <= cluster_id,
                forall|x: int| 0 <= x < n && visited@[x] && is_core(nb, min_points, x) ==> (#[trigger] labels@[x]) is Some,
                forall|x: int| 0 <= x < i ==> #[trigger] visited@[x],
                forall|x: int, k: int| 0 <= x < n && #[trigger] label_is(labels@, x, k)
                    ==> reachable_in(nb, min_points, labels@, x, k),
                forall|q: int| 0 <= q < queue@.len() ==> (#[trigger] queue@[q]) < n && exists|c: int|
                    0 <= c < n && is_core(nb, min_points, c) && label_is(labels@, c, cid) && is_neighbor(nb, c, queue@[q] as int),
                closed_below(nb, min_points, labels@, cid),
                forall|c: int, j: int|
                    0 <= c < n && 0 <= j < n && is_core(nb, min_points, c) && label_is(labels@, c, cid)
                        && #[trigger] is_neighbor(nb, c, j) ==> labels@[j] is Some || queue@.contains(j as usize),
                forall|k: int| 0 <= k < cluster_id ==> #[trigger] cluster_has_core(nb, min_points, labels@, k),
                forall|x: int, k: int| 0 <= x < n && is_core(nb, min_points, x) && #[trigger] label_is(labels@, x, k)
                    && 0 <= k < cid ==> linked_in(nb, min_points, labels@, k, seeds[k], x),
                forall|x: int| 0 <= x < n && is_core(nb, min_points, x) && #[trigger] label_is(labels@, x, cid)
                    ==> linked_in(nb, min_points, labels@, cid, seed, x),
                seeds.len() == cid,
                forall|k: int| 0 <= k < cid ==> 0 <= #[trigger] seeds[k] < seed && is_core(nb, min_points, seeds[k])
                    && label_is(labels@, seeds[k], k),
                forall|a: int, b: int| 0 <= a < b < cid ==> seeds[a] < seeds[b],
                forall|x: int| 0 <= x < n && is_core(nb, min_points, x) && #[trigger] labels@[x] is Some
                    && labels@[x]->0 < cid ==> seeds[labels@[x]->0 as int] <= x,
                forall|x: int| 0 <= x < n && is_core(nb, min_points, x) && #[trigger] label_is(labels@, x, cid) ==> seed <= x,
                forall|x: int| 0 <= x < n && visited@[x] && #[trigger] labels@[x] is None ==> x < seed,
                neighbors_settled_below(nb, min_points, labels@, cid),
            ensures
                queue@.len() == 0,
            decreases n - vis.len(), queue@.len(),
        {
            let ghost q_full = queue@;
            let popped = queue.pop_front();
            let j = match popped {
                Some(j) => j,
                None => break,
            };
            let ghost q0 = queue@;
            let ghost labels0 = labels@;
            let ghost visited0 = visited@;
            let ghost vis0 = vis;
            assert(q_full[0] == j && q0 =~= q_full.drop_first());
            assert(j < n);
            if !visited[j] {
                visited.set(j, true);
                proof {
                    lemma_visit_grows(vis, j as int, n as int);
                    vis = vis.insert(j as int);
                }
                let jn = &neighbors[j];
                if jn.len() >= min_points {
                    let mut t: usize = 0;
                    while t < jn.len()
                        invariant
                            n == nb.len(),
                            nb == neighbors@,
                            neighbor_indices_valid(nb),
                            j < n,
                            *jn == nb[j as int],
                            labels@ == labels0,
                            labels0.len() == n,
                            visited@.len() == n,
                            t <= jn@.len(),
                            queue@.len() >= q0.len(),
                            forall|q: int| 0 <= q < q0.len() ==> #[trigger] queue@[q] == q0[q],
                            forall|q: int| q0.len() <= q < queue@.len() ==> (#[trigger] queue@[q]) < n
                                && is_neighbor(nb, j as int, queue@[q] as int),
                            forall|s: int| 0 <= s < t ==> labels@[jn@[s] as int] is Some
                                || queue@.contains(#[trigger] jn@[s]),
                        decreases jn@.len() - t,
                    {
                        let x = jn[t];
                        let ghost qb = queue@;
                        proof {
                            assert(nb[j as int]@.contains(x));
                        }
                        if labels[x].is_none() {
                            queue.push_back(x);
                            proof {
                                assert(queue@[queue@.len() - 1] == x);
                                assert(queue@.contains(jn@[t as int]));
                                assert forall|s: int| 0 <= s < t implies
                                    labels@[jn@[s] as int] is Some || queue@.contains(#[trigger] jn@[s]) by {
                                    if qb.contains(jn@[s]) {
                                        let w = choose|w: int| 0 <= w < qb.len() && qb[w] == jn@[s];
                                        assert(queue@[w] == jn@[s]);
                                    }
                                }
                            }
                        }
                        t = t + 1;
                    }
                }
            }
            let ghost expanded = !visited0[j as int] && is_core(nb, min_points, j as int);
            if labels[j].is_none() {
                labels.set(j, Some(cluster_id));
            }
            proof {
                assert(labels@[j as int] is Some);
                assert(forall|x: int| 0 <= x < n && x != j ==> labels@[x] == labels0[x]);
                assert(forall|x: int| 0 <= x < n && labels0[x] is Some ==> labels@[x] == labels0[x]);
                assert(!visited0[j as int] ==> labels@[j as int] == Some(cluster_id));
                assert(!expanded ==> queue@ == q0);
                let c0 = choose|c: int|
                    0 <= c < n && is_core(nb, min_points, c) && label_is(labels0, c, cid) && is_neighbor(nb, c, q_full[0] as int);
                assert(label_is(labels@, c0, cid));
                // every core member stays linked to its cluster's seed
                assert forall|y: int, k: int| 0 <= y < nb.len() && #[trigger] label_is(labels0, y, k)
                    implies label_is(labels@, y, k) by {
                    assert(labels@[y] == labels0[y]);
                }
                assert forall|x: int, k: int| 0 <= x < n && is_core(nb, min_points, x) && #[trigger] label_is(labels@, x, k)
                    && 0 <= k < cid implies linked_in(nb, min_points, labels@, k, seeds[k], x) by {
                    assert(labels0[x] is Some);
                    assert(label_is(labels0, x, k));
                    lemma_linked_mono(nb, min_points, labels0, labels@, k, seeds[k], x);
                }
                lemma_linked_mono(nb, min_points, labels0, labels@, cid, seed, c0);
                assert forall|x: int| 0 <= x < n && is_core(nb, min_points, x) && #[trigger] label_is(labels@, x, cid)
                    implies linked_in(nb, min_points, labels@, cid, seed, x) by {
                    if labels0[x] is Some {
                        assert(label_is(labels0, x, cid));
                        lemma_linked_mono(nb, min_points, labels0, labels@, cid, seed, x);
                    } else {
                        assert(x == j);
                        lemma_linked_extend(nb, min_points, labels@, cid, seed, c0, x);
                    }
                }
                // every member keeps a core witness of its own cluster
                assert forall|x: int, k: int| 0 <= x < n && #[trigger] label_is(labels@, x, k)
                    implies reachable_in(nb, min_points, labels@, x, k) by {
                    if labels0[x] is Some {
                        assert(label_is(labels0, x, k));
                        if !is_core(nb, min_points, x) {
                            let c = choose|c: int| 0 <= c < nb.len() && is_core(nb, min_points, c)
                                && label_is(labels0, c, k) && #[trigger] is_neighbor(nb, c, x);
                            assert(label_is(labels@, c, k));
                        }
                    } else {
                        assert(x == j);
                        assert(k == cid);
                        assert(is_neighbor(nb, c0, x));
                    }
                }
                // pending queue entries stay reachable
                assert forall|q: int| 0 <= q < queue@.len() implies (#[trigger] queue@[q]) < n && exists|c: int|
                    0 <= c < n && is_core(nb, min_points, c) && label_is(labels@, c, cid) && is_neighbor(nb, c, queue@[q] as int) by {
                    if q < q0.len() {
                        assert(queue@[q] == q_full[q + 1]);
                        let c = choose|c: int| 0 <= c < n && is_core(nb, min_points, c) && label_is(labels0, c, cid)
                            && is_neighbor(nb, c, q_full[q + 1] as int);
                        assert(label_is(labels@, c, cid));
                    } else {
                        assert(expanded);
                        assert(label_is(labels@, j as int, cid));
                        assert(is_neighbor(nb, j as int, queue@[q] as int));
                    }
                }
                // every neighbour of a core member is settled or pending
                assert forall|c: int, x: int|
                    0 <= c < n && 0 <= x < n && is_core(nb, min_points, c) && label_is(labels@, c, cid)
                        && #[trigger] is_neighbor(nb, c, x) implies labels@[x] is Some || queue@.contains(x as usize) by {
                    if labels0[c] is Some {
                        assert(label_is(labels0, c, cid));
                        if labels0[x] is Some {
                        } else if q_full.contains(x as usize) {
                            let w = choose|w: int| 0 <= w < q_full.len() && q_full[w] == x as usize;
                            if w > 0 {
                                assert(q0[w - 1] == x as usize);
                                assert(queue@[w - 1] == x as usize);
                            }
                        } else {
                        }
                    } else {
                        assert(c == j);
                        assert(expanded);
                        let s = choose|s: int| 0 <= s < nb[c]@.len() && nb[c]@[s] == x as usize;
                        assert(labels0[x] is Some || queue@.contains(nb[c]@[s]));
                    }
                }
                assert forall|k: int| 0 <= k < cluster_id implies #[trigger] cluster_has_core(nb, min_points, labels@, k) by {
                    assert(cluster_has_core(nb, min_points, labels0, k));
                    let x = choose|x: int| 0 <= x < nb.len() && is_core(nb, min_points, x) && #[trigger] label_is(labels0, x, k);
                    assert(label_is(labels@, x, k));
                }
                assert forall|k: int| 0 <= k < cid implies 0 <= #[trigger] seeds[k] < seed && is_core(nb, min_points, seeds[k])
                    && label_is(labels@, seeds[k], k) by {
                    assert(label_is(labels0, seeds[k], k));
                }
                assert forall|x: int| 0 <= x < n && is_core(nb, min_points, x) && #[trigger] labels@[x] is Some
                    && labels@[x]->0 < cid implies seeds[labels@[x]->0 as int] <= x by {
                    assert(labels0[x] is Some);
                }
                assert forall|x: int| 0 <= x < n && is_core(nb, min_points, x) && #[trigger] label_is(labels@, x, cid)
                    implies seed <= x by {
                    if labels0[x] is Some {
                        assert(label_is(labels0, x, cid));
                    } else {
                        assert(x == j);
                        assert(!visited0[x]);
                    }
                }
                assert forall|x: int| 0 <= x < n && visited@[x] && #[trigger] labels@[x] is None implies x < seed by {
                    assert(x != j);
                    assert(visited0[x]);
                    assert(labels0[x] is None);
                }
                assert forall|c: int, x: int| 0 <= c < n && 0 <= x < n && is_core(nb, min_points, c) && labels@[c] is Some
                    && labels@[c]->0 < cid && #[trigger] is_neighbor(nb, c, x)
                    implies labels@[x] is Some && labels@[x]->0 <= labels@[c]->0 by {
                    if labels0[c] is None {
                        assert(c == j);
                        assert(labels@[c]->0 == cid);
                    }
                    assert(labels0[x] is Some);
                }
                assert(closed_below(nb, min_points, labels@, cid)) by {
                    if neighbors_symmetric(nb) {
                        assert forall|c: int, x: int|
                            0 <= c < nb.len() && 0 <= x < nb.len() && is_core(nb, min_points, c) && is_core(nb, min_points, x)
                                && labels@[c] is Some && (labels@[c]->0 as int) < cid && #[trigger] is_neighbor(nb, c, x)
                                implies labels@[x] == labels@[c] by {
                            assert(labels0[c] == labels@[c]);
                            assert(labels0[x] == labels0[c]);
                        }
                    }
                }
            }
        }
        proof {
            assert(closed_below(nb, min_points, labels@, cid + 1)) by {
                if neighbors_symmetric(nb) {
                    assert forall|c: int, x: int|
                        0 <= c < nb.len() && 0 <= x < nb.len() && is_core(nb, min_points, c) && is_core(nb, min_points, x)
                            && labels@[c] is Some && (labels@[c]->0 as int) < cid + 1 && #[trigger] is_neighbor(nb, c, x)
                            implies labels@[x] == labels@[c] by {
                        if labels@[c]->0 as int == cid {
                            assert(label_is(labels@, c, cid));
                            assert(labels@[x] is Some);
                            if labels@[x]->0 as int != cid {
                                assert(is_neighbor(nb, x, c));
                            }
                        }
                    }
                }
            }
            assert(cluster_has_core(nb, min_points, labels@, cid));
            let ghost old_seeds = seeds;
            seeds = seeds.push(seed);
            assert forall|x: int, k: int| 0 <= x < n && is_core(nb, min_points, x) && #[trigger] label_is(labels@, x, k)
                && 0 <= k < cid + 1 implies linked_in(nb, min_points, labels@, k, seeds[k], x) by {
                if k < cid {
                    assert(seeds[k] == old_seeds[k]);
                }
            }
            assert forall|x: int| 0 <= x < n && is_core(nb, min_points, x) && #[trigger] labels@[x] is Some
                implies seeds[labels@[x]->0 as int] <= x by {
                if labels@[x]->0 as int == cid {
                    assert(label_is(labels@, x, cid));
                }
            }
            assert forall|c: int, x: int| 0 <= c < n && 0 <= x < n && is_core(nb, min_points, c) && labels@[c] is Some
                && labels@[c]->0 < cid + 1 && #[trigger] is_neighbor(nb, c, x)
                implies labels@[x] is Some && labels@[x]->0 <= labels@[c]->0 by {
                if labels@[c]->0 as int == cid {
                    assert(label_is(labels@, c, cid));
                    assert(labels@[x] is Some || queue@.contains(x as usize));
                }
            }
        }
        cluster_id = cluster_id + 1;
        i = i + 1;
    }
    proof {
        assert forall|x: int, y: int| 0 <= x < n && 0 <= y < n && is_core(nb, min_points, x) && is_core(nb, min_points, y)
            && #[trigger] labels@[x] is Some && #[trigger] labels@[y] is Some && labels@[x]->0 < labels@[y]->0
            implies exists|c: int| 0 <= c < y && is_core(nb, min_points, c) && label_is(labels@, c, labels@[x]->0 as int) by {
            let c = seeds[labels@[x]->0 as int];
            assert(seeds[labels@[x]->0 as int] < seeds[labels@[y]->0 as int]);
            assert(label_is(labels@, c, labels@[x]->0 as int));
        }
        assert forall|c: int, j: int| 0 <= c < n && 0 <= j < n && is_core(nb, min_points, c)
            && #[trigger] is_neighbor(nb, c, j) implies labels@[j] is Some && labels@[c] is Some
            && labels@[j]->0 <= labels@[c]->0 by {
            assert(visited@[c]);
            assert(labels@[c] is Some);
        }
        assert forall|k: int, s: int, x: int| 0 <= s < n && 0 <= x < n
            && is_core(nb, min_points, s) && is_core(nb, min_points, x)
            && #[trigger] label_is(labels@, x, k) && #[trigger] label_is(labels@, s, k)
            && (forall|c: int| 0 <= c < s && is_core(nb, min_points, c) ==> !label_is(labels@, c, k))
            implies linked_in(nb, min_points, labels@, k, s, x) by {
            assert(labels@[s] is Some);
            assert(0 <= k < cluster_id);
            let first = seeds[k];
            assert(label_is(labels@, first, k));
            assert(seeds[labels@[s]->0 as int] <= s);
            if first < s {
                assert(!label_is(labels@, first, k));
            }
            assert(first == s);
        }
    }
    (labels, cluster_id)
}

} // verus!

verus! {

/// Point indices of each cluster, and of the points left as noise.
#[derive(Debug, Clone)]
pub struct ClusterIndices {
    /// Identifier of the cluster at each position.
    pub ids: Vec<u32>,
    /// Members of cluster `k` at position `k`, in ascending index order.
    pub clusters: Vec<Vec<usize>>,
    /// Indices of noise points (not belonging to any cluster), ascending.
    pub noise_indices: Vec<usize>,
}

/// The entries of `s` increase strictly.
pub open spec fn strictly_increasing(s: Seq<usize>) -> bool {
    forall|a: int, b: int| 0 <= a < b < s.len() ==> s[a] < s[b]
}

/// Point `x` is a member of cluster `k`.
pub open spec fn in_cluster(r: ClusterIndices, x: int, k: int) -> bool {
    0 <= k < r.clusters@.len() && r.clusters@[k]@.contains(x as usize)
}

/// Point `x` is noise.
pub open spec fn is_noise(r: ClusterIndices, x: int) -> bool {
    r.noise_indices@.contains(x as usize)
}

/// The clusters and the noise split the points `0..n` between them: every
/// point lies in exactly one of them, each list ascends and no cluster is empty.
pub open spec fn partitions_points(r: ClusterIndices, n: int) -> bool {
    &&& forall|k: int| 0 <= k < r.clusters@.len() ==> {
        &&& strictly_increasing(#[trigger] r.clusters@[k]@)
        &&& r.clusters@[k]@.len() > 0
        &&& forall|a: int| 0 <= a < r.clusters@[k]@.len() ==> r.clusters@[k]@[a] < n
    }
    &&& strictly_increasing(r.noise_indices@)
    &&& forall|a: int| 0 <= a < r.noise_indices@.len() ==> r.noise_indices@[a] < n
    &&& forall|x: int| 0 <= x < n ==> is_noise(r, x) || exists|k: int| #[trigger] in_cluster(r, x, k)
    &&& forall|x: int, k: int| #[trigger] in_cluster(r, x, k) ==> !is_noise(r, x)
    &&& forall|x: int, k1: int, k2: int| #[trigger] in_cluster(r, x, k1) && #[trigger] in_cluster(r, x, k2) ==> k1 == k2
}

spec fn label_used(labels: Seq<Option<u32>>, k: int) -> bool {
    exists|x: int| 0 <= x < labels.len() && #[trigger] label_is(labels, x, k)
}

/// Group points by cluster label: `Some(k)` joins cluster `k`, `None` is noise.
fn group_by_label(labels: &Vec<Option<u32>>, count: u32) -> (r: ClusterIndices)
    requires
        forall|x: int| 0 <= x < labels@.len() && labels@[x] is Some ==> (#[trigger] labels@[x])->0 < count,
    ensures
        r.clusters@.len() == count,
        r.ids@.len() == count,
        forall|k: int| 0 <= k < count ==> r.ids@[k] == k,
        forall|k: int| 0 <= k < count ==> {
            &&& strictly_increasing(#[trigger] r.clusters@[k]@)
            &&& forall|a: int| 0 <= a < r.clusters@[k]@.len() ==> r.clusters@[k]@[a] < labels@.len()
        },
        strictly_increasing(r.noise_indices@),
        forall|a: int| 0 <= a < r.noise_indices@.len() ==> r.noise_indices@[a] < labels@.len(),
        forall|x: int, k: int| 0 <= x < labels@.len() ==> (in_cluster(r, x, k) <==> #[trigger] label_is(labels@, x, k)),
        forall|x: int| 0 <= x < labels@.len() ==> (is_noise(r, x) <==> (#[trigger] labels@[x]) is None),
{
    let n = labels.len();
    let mut clusters: Vec<Vec<usize>> = Vec::new();
    let mut ids: Vec<u32> = Vec::new();
    while clusters.len() < count as usize
        invariant
            clusters@.len() <= count,
            ids@.len() == clusters@.len(),
            forall|k: int| 0 <= k < clusters@.len() ==> (#[trigger] clusters@[k])@.len() == 0,
            forall|k: int| 0 <= k < ids@.len() ==> ids@[k] == k,
        decreases count - clusters@.len(),
    {
        ids.push(clusters.len() as u32);
        clusters.push(Vec::new());
    }
    let mut noise: Vec<usize> = Vec::new();
    let mut x: usize = 0;
    while x < n
        invariant
            n == labels@.len(),
            x <= n,
            clusters@.len() == count,
            forall|y: int| 0 <= y < n && labels@[y] is Some ==> (#[trigger] labels@[y])->0 < count,
            forall|k: int| 0 <= k < count ==> {
                &&& strictly_increasing(#[trigger] clusters@[k]@)
                &&& forall|a: int| 0 <= a < clusters@[k]@.len() ==> clusters@[k]@[a] < x
                &&& forall|y: int| 0 <= y < n ==> (clusters@[k]@.contains(y as usize) <==> (y < x && label_is(labels@, y, k)))
            },
            strictly_increasing(noise@),
            forall|a: int| 0 <= a < noise@.len() ==> noise@[a] < x,
            forall|y: int| 0 <= y < n ==> (noise@.contains(y as usize) <==> (y < x && (#[trigger] labels@[y]) is None)),
        decreases n - x,
    {
        match labels[x] {
            Some(k) => {
                let ghost before = clusters@;
                clusters[k as usize].push(x);
                proof {
                    assert forall|kk: int| 0 <= kk < count implies {
                        &&& strictly_increasing(#[trigger] clusters@[kk]@)
                        &&& forall|a: int| 0 <= a < clusters@[kk]@.len() ==> clusters@[kk]@[a] < x + 1
                        &&& forall|y: int| 0 <= y < n ==> (clusters@[kk]@.contains(y as usize) <==> (y < x + 1 && label_is(labels@, y, kk)))
                    } by {
                        if kk == k as int {
                            assert(clusters@[kk]@ == before[kk]@.push(x));
                            assert forall|y: int| 0 <= y < n implies (clusters@[kk]@.contains(y as usize) <==> (y < x + 1 && label_is(labels@, y, kk))) by {
                                if y == x {
                                    assert(clusters@[kk]@[clusters@[kk]@.len() - 1] == x);
                                } else if clusters@[kk]@.contains(y as usize) {
                                    let w = choose|w: int| 0 <= w < clusters@[kk]@.len() && clusters@[kk]@[w] == y as usize;
                                    if w < before[kk]@.len() {
                                        assert(before[kk]@.contains(y as usize));
                                    }
                                } else if y < x && label_is(labels@, y, kk) {
                                    let w = choose|w: int| 0 <= w < before[kk]@.len() && before[kk]@[w] == y as usize;
                                    assert(clusters@[kk]@[w] == y as usize);
                                }
                            }
                        } else {
                            assert(clusters@[kk] == before[kk]);
                        }
                    }
                }
            },
            None => {
                let ghost before = noise@;
                noise.push(x);
                proof {
                    assert forall|y: int| 0 <= y < n implies (noise@.contains(y as usize) <==> (y < x + 1 && (#[trigger] labels@[y]) is None)) by {
                        if y == x {
                            assert(noise@[noise@.len() - 1] == x);
                        } else if noise@.contains(y as usize) {
                            let w = choose|w: int| 0 <= w < noise@.len() && noise@[w] == y as usize;
                            if w < before.len() {
                                assert(before.contains(y as usize));
                            }
                        } else if y < x && labels@[y] is None {
                            let w = choose|w: int| 0 <= w < before.len() && before[w] == y as usize;
                            assert(noise@[w] == y as usize);
                        }
                    }
                }
            },
        }
        x = x + 1;
    }
    ClusterIndices { ids, clusters, noise_indices: noise }
}

proof fn lemma_grouping_partitions(labels: Seq<Option<u32>>, count: u32, r: ClusterIndices)
    requires
        r.clusters@.len() == count,
        forall|k: int| 0 <= k < count ==> {
            &&& strictly_increasing(#[trigger] r.clusters@[k]@)
            &&& forall|a: int| 0 <= a < r.clusters@[k]@.len() ==> r.clusters@[k]@[a] < labels.len()
        },
        strictly_increasing(r.noise_indices@),
        forall|a: int| 0 <= a < r.noise_indices@.len() ==> r.noise_indices@[a] < labels.len(),
        forall|x: int| 0 <= x < labels.len() && labels[x] is Some ==> (#[trigger] labels[x])->0 < count,
        forall|k: int| 0 <= k < count ==> #[trigger] label_used(labels, k),
        forall|x: int, k: int| 0 <= x < labels.len() ==> (in_cluster(r, x, k) <==> #[trigger] label_is(labels, x, k)),
        forall|x: int| 0 <= x < labels.len() ==> (is_noise(r, x) <==> (#[trigger] labels[x]) is None),
    ensures
        partitions_points(r, labels.len() as int),
{
    let n = labels.len();
    assert forall|k: int| 0 <= k < r.clusters@.len() implies r.clusters@[k]@.len() > 0 by {
        assert(label_used(labels, k));
        let x = choose|x: int| 0 <= x < labels.len() && #[trigger] label_is(labels, x, k);
        assert(in_cluster(r, x, k));
    }
    assert forall|x: int| 0 <= x < n implies is_noise(r, x) || exists|k: int| #[trigger] in_cluster(r, x, k) by {
        if labels[x] is Some {
            let k = labels[x]->0 as int;
            assert(label_is(labels, x, k));
            assert(in_cluster(r, x, k));
        }
    }
    assert forall|x: int, k: int| #[trigger] in_cluster(r, x, k) implies !is_noise(r, x) by {
        let w = choose|w: int| 0 <= w < r.clusters@[k]@.len() && r.clusters@[k]@[w] == x as usize;
        let y = r.clusters@[k]@[w] as int;
        assert(y < n);
        assert(in_cluster(r, y, k));
        assert(label_is(labels, y, k));
    }
    assert forall|x: int, k1: int, k2: int| #[trigger] in_cluster(r, x, k1) && #[trigger] in_cluster(r, x, k2) implies k1 == k2 by {
        let w = choose|w: int| 0 <= w < r.clusters@[k1]@.len() && r.clusters@[k1]@[w] == x as usize;
        let y = r.clusters@[k1]@[w] as int;
        assert(y < n);
        assert(in_cluster(r, y, k1));
        assert(in_cluster(r, y, k2));
        assert(label_is(labels, y, k1));
        assert(label_is(labels, y, k2));
    }
}

} // verus!

verus! {

/// Cluster `k` of `r` holds a core point.
pub open spec fn has_core_member(nb: Seq<Vec<usize>>, min_points: usize, r: ClusterIndices, k: int) -> bool {
    exists|c: int| 0 <= c < nb.len() && is_core(nb, min_points, c) && #[trigger] in_cluster(r, c, k)
}

/// Core point `s` is the lowest-numbered core point of cluster `k`.
pub open spec fn first_core_of(nb: Seq<Vec<usize>>, min_points: usize, r: ClusterIndices, k: int, s: int) -> bool {
    &&& 0 <= s < nb.len()
    &&& is_core(nb, min_points, s)
    &&& in_cluster(r, s, k)
    &&& forall|c: int| 0 <= c < s && is_core(nb, min_points, c) ==> !in_cluster(r, c, k)
}

/// Core point `x` is reached from core point `s` by a walk from core point
/// to neighbouring core point that stays inside cluster `k`.
pub open spec fn linked_through_cluster(nb: Seq<Vec<usize>>, min_points: usize, r: ClusterIndices, k: int, s: int, x: int) -> bool {
    exists|path: Seq<int>| #[trigger] core_path(nb, min_points, path) && path[0] == s && path.last() == x
        && forall|i: int| 0 <= i < path.len() ==> #[trigger] in_cluster(r, path[i], k)
}

/// Under symmetric neighbourhoods, a walk through core points that starts in
/// cluster `k` stays in it, when neighbouring core points share a cluster.
proof fn lemma_core_path_stays(nb: Seq<Vec<usize>>, min_points: usize, r: ClusterIndices, path: Seq<int>, k: int)
    requires
        core_path(nb, min_points, path),
        in_cluster(r, path[0], k),
        forall|c: int, x: int, k2: int|
            0 <= c < nb.len() && 0 <= x < nb.len() && is_core(nb, min_points, c)
                && is_core(nb, min_points, x) && #[trigger] in_cluster(r, c, k2)
                && #[trigger] is_neighbor(nb, c, x) ==> in_cluster(r, x, k2),
    ensures
        forall|i: int| 0 <= i < path.len() ==> #[trigger] in_cluster(r, path[i], k),
    decreases path.len(),
{
    if path.len() > 1 {
        let front = path.drop_last();
        assert forall|i: int| 0 <= i < front.len() implies 0 <= #[trigger] front[i] < nb.len()
            && is_core(nb, min_points, front[i]) by {
            assert(front[i] == path[i]);
        }
        assert forall|i: int| 0 <= i < front.len() - 1 implies #[trigger] path_step(nb, front, i) by {
            assert(path_step(nb, path, i));
            assert(front[i] == path[i] && front[i + 1] == path[i + 1]);
        }
        assert(core_path(nb, min_points, front));
        assert(front[0] == path[0]);
        lemma_core_path_stays(nb, min_points, r, front, k);
        let m = path.len() - 2;
        assert(path_step(nb, path, m));
        assert(front[m] == path[m]);
        assert(in_cluster(r, front[m], k));
        assert forall|i: int| 0 <= i < path.len() implies #[trigger] in_cluster(r, path[i], k) by {
            if i < path.len() - 1 {
                assert(front[i] == path[i]);
                assert(in_cluster(r, front[i], k));
            } else {
                assert(0 <= path[m] < nb.len() && is_core(nb, min_points, path[m]));
                assert(0 <= path[i] < nb.len() && is_core(nb, min_points, path[i]));
                assert(is_neighbor(nb, path[m], path[m + 1]));
            }
        }
    }
}

/// Cluster obstacle points with DBSCAN over the neighbourhoods `neighbors`.
///
/// A core point has at least `min_points` neighbours (itself included).
/// Each cluster grows from a core point through the neighbourhoods of the
/// core points it reaches, and takes in every neighbour of those core points
/// that no earlier cluster holds; points reached by no cluster are noise.
/// Every core point of a cluster is reached from the cluster's
/// lowest-numbered core point by a walk through neighbouring core points of
/// that cluster, and with symmetric neighbourhoods no such walk leaves its
/// cluster, so dense groups that no chain of core points joins stay apart.
pub fn cluster_obstacles(neighbors: &Vec<Vec<usize>>, min_points: usize) -> (r: ClusterIndices)
    requires
        neighbor_indices_valid(neighbors@),
        neighbors@.len() <= u32::MAX,
    ensures
        partitions_points(r, neighbors@.len() as int),
        r.ids@.len() == r.clusters@.len(),
        forall|k: int| 0 <= k < r.ids@.len() ==> r.ids@[k] == k,
        forall|x: int| 0 <= x < neighbors@.len() && is_core(neighbors@, min_points, x) ==> !#[trigger] is_noise(r, x),
        forall|x: int, k: int| 0 <= x < neighbors@.len() && #[trigger] in_cluster(r, x, k) ==>
            is_core(neighbors@, min_points, x) || exists|c: int|
                0 <= c < neighbors@.len() && is_core(neighbors@, min_points, c) && in_cluster(r, c, k)
                    && #[trigger] is_neighbor(neighbors@, c, x),
        forall|k: int| 0 <= k < r.clusters@.len() ==> #[trigger] has_core_member(neighbors@, min_points, r, k),
        forall|k1: int, k2: int, y: int| 0 <= k1 < k2 && 0 <= y < neighbors@.len() && is_core(neighbors@, min_points, y)
            && #[trigger] in_cluster(r, y, k2) && #[trigger] has_core_member(neighbors@, min_points, r, k1)
            ==> exists|c: int| 0 <= c < y && is_core(neighbors@, min_points, c) && in_cluster(r, c, k1),
        forall|c: int, x: int| 0 <= c < neighbors@.len() && 0 <= x < neighbors@.len() && is_core(neighbors@, min_points, c)
            && #[trigger] is_neighbor(neighbors@, c, x) ==> !is_noise(r, x),
        forall|c: int, x: int, k: int| 0 <= c < neighbors@.len() && 0 <= x < neighbors@.len()
            && is_core(neighbors@, min_points, c) && #[trigger] in_cluster(r, c, k) && #[trigger] is_neighbor(neighbors@, c, x)
            ==> exists|k2: int| k2 <= k && #[trigger] in_cluster(r, x, k2),
        neighbors_symmetric(neighbors@) ==> forall|c: int, x: int, k: int|
            0 <= c < neighbors@.len() && 0 <= x < neighbors@.len() && is_core(neighbors@, min_points, c)
                && is_core(neighbors@, min_points, x) && #[trigger] in_cluster(r, c, k)
                && #[trigger] is_neighbor(neighbors@, c, x) ==> in_cluster(r, x, k),
        forall|k: int, s: int, x: int| 0 <= x < neighbors@.len() && is_core(neighbors@, min_points, x)
            && #[trigger] in_cluster(r, x, k) && #[trigger] first_core_of(neighbors@, min_points, r, k, s)
            ==> linked_through_cluster(neighbors@, min_points, r, k, s, x),
        neighbors_symmetric(neighbors@) ==> forall|path: Seq<int>, k: int|
            #[trigger] core_path(neighbors@, min_points, path) && #[trigger] in_cluster(r, path[0], k)
            ==> forall|i: int| 0 <= i < path.len() ==> #[trigger] in_cluster(r, path[i], k),
{
    let ghost nb = neighbors@;
    let (labels, count) = dbscan_labels(neighbors, min_points);
    proof {
        assert forall|k: int| 0 <= k < count implies #[trigger] label_used(labels@, k) by {
            assert(cluster_has_core(nb, min_points, labels@, k));
        }
    }
    let r = group_by_label(&labels, count);
    proof {
        lemma_grouping_partitions(labels@, count, r);
        let n = nb.len() as int;
        assert forall|x: int| 0 <= x < n && is_core(nb, min_points, x) implies !#[trigger] is_noise(r, x) by {
            assert(labels@[x] is Some);
        }
        assert forall|x: int, k: int| 0 <= x < n && #[trigger] in_cluster(r, x, k) implies
            is_core(nb, min_points, x) || exists|c: int|
                0 <= c < n && is_core(nb, min_points, c) && in_cluster(r, c, k) && #[trigger] is_neighbor(nb, c, x) by {
            assert(label_is(labels@, x, k));
            assert(reachable_in(nb, min_points, labels@, x, k));
            if !is_core(nb, min_points, x) {
                let c = choose|c: int| 0 <= c < nb.len() && is_core(nb, min_points, c)
                    && label_is(labels@, c, k) && #[trigger] is_neighbor(nb, c, x);
                assert(in_cluster(r, c, k));
            }
        }
        assert forall|k: int| 0 <= k < r.clusters@.len() implies #[trigger] has_core_member(nb, min_points, r, k) by {
            assert(cluster_has_core(nb, min_points, labels@, k));
            let c = choose|c: int| 0 <= c < nb.len() && is_core(nb, min_points, c) && #[trigger] label_is(labels@, c, k);
            assert(in_cluster(r, c, k));
        }
        assert forall|k1: int, k2: int, y: int| 0 <= k1 < k2 && 0 <= y < n && is_core(nb, min_points, y)
            && #[trigger] in_cluster(r, y, k2) && #[trigger] has_core_member(nb, min_points, r, k1)
            implies exists|c: int| 0 <= c < y && is_core(nb, min_points, c) && in_cluster(r, c, k1) by {
            let x = choose|c: int| 0 <= c < nb.len() && is_core(nb, min_points, c) && #[trigger] in_cluster(r, c, k1);
            assert(label_is(labels@, x, k1));
            assert(label_is(labels@, y, k2));
            assert(labels@[x] is Some && labels@[y] is Some);
            let c = choose|c: int| 0 <= c < y && is_core(nb, min_points, c) && label_is(labels@, c, labels@[x]->0 as int);
            assert(in_cluster(r, c, k1));
        }
        assert forall|c: int, x: int| 0 <= c < n && 0 <= x < n && is_core(nb, min_points, c)
            && #[trigger] is_neighbor(nb, c, x) implies !is_noise(r, x) by {
            assert(labels@[x] is Some);
        }
        assert forall|c: int, x: int, k: int| 0 <= c < n && 0 <= x < n && is_core(nb, min_points, c)
            && #[trigger] in_cluster(r, c, k) && #[trigger] is_neighbor(nb, c, x)
            implies exists|k2: int| k2 <= k && #[trigger] in_cluster(r, x, k2) by {
            assert(label_is(labels@, c, k));
            let k2 = labels@[x]->0 as int;
            assert(label_is(labels@, x, k2));
            assert(in_cluster(r, x, k2));
        }
        if neighbors_symmetric(nb) {
            assert forall|c: int, x: int, k: int|
                0 <= c < n && 0 <= x < n && is_core(nb, min_points, c) && is_core(nb, min_points, x)
                    && #[trigger] in_cluster(r, c, k) && #[trigger] is_neighbor(nb, c, x) implies in_cluster(r, x, k) by {
                assert(label_is(labels@, c, k));
                assert(labels@[x] is Some);
                assert(labels@[x] == labels@[c]);
                assert(label_is(labels@, x, k));
            }
            assert forall|path: Seq<int>, k: int|
                #[trigger] core_path(nb, min_points, path) && #[trigger] in_cluster(r, path[0], k)
                implies forall|i: int| 0 <= i < path.len() ==> #[trigger] in_cluster(r, path[i], k) by {
                lemma_core_path_stays(nb, min_points, r, path, k);
            }
        }
        assert forall|k: int, s: int, x: int| 0 <= x < n && is_core(nb, min_points, x)
            && #[trigger] in_cluster(r, x, k) && #[trigger] first_core_of(nb, min_points, r, k, s)
            implies linked_through_cluster(nb, min_points, r, k, s, x) by {
            assert(label_is(labels@, x, k));
            assert(label_is(labels@, s, k));
            assert forall|c: int| 0 <= c < s && is_core(nb, min_points, c) implies !label_is(labels@, c, k) by {
                if label_is(labels@, c, k) {
                    assert(in_cluster(r, c, k));
                }
            }
            assert(linked_in(nb, min_points, labels@, k, s, x));
            let path = choose|path: Seq<int>| #[trigger] core_path(nb, min_points, path) && path[0] == s && path.last() == x
                && forall|i: int| 0 <= i < path.len() ==> #[trigger] label_is(labels@, path[i], k);
            assert forall|i: int| 0 <= i < path.len() implies #[trigger] in_cluster(r, path[i], k) by {
                assert(label_is(labels@, path[i], k));
                assert(0 <= path[i] < n);
            }
        }
    }
    r
}

} // verus!

verus! {

/// Cluster `e` of `r` gathers exactly the points labelled with its identifier.
pub open spec fn members_match_labels(r: ClusterIndices, labels: Seq<i32>) -> bool {
    forall|e: int, x: int| 0 <= e < r.clusters@.len() && 0 <= x < labels.len() ==>
        (#[trigger] r.clusters@[e]@.contains(x as usize) <==> labels[x] == r.ids@[e] as int)
}

/// Turn per-point cluster labels (negative for noise) into clusters.
///
/// Each label value in use becomes one cluster that keeps the label as its
/// identifier; clusters come in ascending order of identifier.
pub fn labels_to_clusters(labels: &Vec<i32>) -> (r: ClusterIndices)
    ensures
        partitions_points(r, labels@.len() as int),
        r.ids@.len() == r.clusters@.len(),
        forall|a: int, b: int| 0 <= a < b < r.ids@.len() ==> r.ids@[a] < r.ids@[b],
        members_match_labels(r, labels@),
        forall|x: int| 0 <= x < labels@.len() ==> (is_noise(r, x) <==> (#[trigger] labels@[x]) < 0),
{
    let n = labels.len();
    let mut max_label: i32 = -1;
    let mut as_options: Vec<Option<u32>> = Vec::new();
    let mut x: usize = 0;
    while x < n
        invariant
            n == labels@.len(),
            x <= n,
            as_options@.len() == x,
            -1 <= max_label,
            forall|y: int| 0 <= y < x ==> labels@[y] <= max_label,
            forall|y: int| 0 <= y < x ==> (#[trigger] as_options@[y]) == (if labels@[y] < 0 { None::<u32> } else { Some(labels@[y] as u32) }),
        decreases n - x,
    {
        let l = labels[x];
        if l > max_label {
            max_label = l;
        }
        if l < 0 {
            as_options.push(None);
        } else {
            as_options.push(Some(l as u32));
        }
        x = x + 1;
    }
    let count: u32 = (max_label as i64 + 1) as u32;
    let grouped = group_by_label(&as_options, count);
    let mut ids: Vec<u32> = Vec::new();
    let mut clusters: Vec<Vec<usize>> = Vec::new();
    let mut k: usize = 0;
    while k < grouped.clusters.len()
        invariant
            grouped.clusters@.len() == count,
            grouped.ids@.len() == count,
            forall|j: int| 0 <= j < count ==> grouped.ids@[j] == j,
            k <= count,
            ids@.len() == clusters@.len(),
            forall|e: int| 0 <= e < ids@.len() ==> ids@[e] < k,
            forall|a: int, b: int| 0 <= a < b < ids@.len() ==> ids@[a] < ids@[b],
            forall|e: int| 0 <= e < ids@.len() ==> (#[trigger] clusters@[e])@ == grouped.clusters@[ids@[e] as int]@
                && clusters@[e]@.len() > 0,
            forall|j: int| 0 <= j < k && grouped.clusters@[j]@.len() > 0 ==> exists|e: int| 0 <= e < ids@.len() && #[trigger] ids@[e] == j,
        decreases count - k,
    {
        let ghost ids0 = ids@;
        if grouped.clusters[k].len() > 0 {
            let members = grouped.clusters[k].clone();
            proof {
                assert(members@ =~= grouped.clusters@[k as int]@);
            }
            ids.push(k as u32);
            clusters.push(members);
        }
        proof {
            assert forall|j: int| 0 <= j < k + 1 && grouped.clusters@[j]@.len() > 0 implies exists|e: int|
                0 <= e < ids@.len() && #[trigger] ids@[e] == j by {
                if j == k {
                    assert(ids@[ids@.len() - 1] == j);
                } else {
                    let e = choose|e: int| 0 <= e < ids0.len() && #[trigger] ids0[e] == j;
                    assert(ids@[e] == ids0[e]);
                }
            }
        }
        k = k + 1;
    }
    let r = ClusterIndices { ids, clusters, noise_indices: grouped.noise_indices };
    proof {
        let opt = as_options@;
        assert forall|e: int, x: int| 0 <= e < r.clusters@.len() && 0 <= x < n implies
            (#[trigger] r.clusters@[e]@.contains(x as usize) <==> labels@[x] == r.ids@[e] as int) by {
            let j = r.ids@[e] as int;
            assert(r.clusters@[e]@ == grouped.clusters@[j]@);
            assert(in_cluster(grouped, x, j) <==> label_is(opt, x, j));
        }
        assert forall|k: int| 0 <= k < r.clusters@.len() implies {
            &&& strictly_increasing(#[trigger] r.clusters@[k]@)
            &&& r.clusters@[k]@.len() > 0
            &&& forall|a: int| 0 <= a < r.clusters@[k]@.len() ==> r.clusters@[k]@[a] < n
        } by {
            assert(r.clusters@[k]@ == grouped.clusters@[r.ids@[k] as int]@);
        }
        assert forall|x: int| 0 <= x < n implies is_noise(r, x) || exists|e: int| #[trigger] in_cluster(r, x, e) by {
            if labels@[x] >= 0 {
                let j = labels@[x] as int;
                assert(label_is(opt, x, j));
                assert(in_cluster(grouped, x, j));
                assert(grouped.clusters@[j]@.len() > 0);
                let e = choose|e: int| 0 <= e < r.ids@.len() && #[trigger] r.ids@[e] == j;
                assert(r.clusters@[e]@.contains(x as usize));
                assert(in_cluster(r, x, e));
            } else {
                assert(is_noise(grouped, x));
            }
        }
        assert forall|x: int, e: int| #[trigger] in_cluster(r, x, e) implies !is_noise(r, x) by {
            let w = choose|w: int| 0 <= w < r.clusters@[e]@.len() && r.clusters@[e]@[w] == x as usize;
            let y = r.clusters@[e]@[w] as int;
            assert(y < n);
            assert(r.clusters@[e]@.contains(y as usize));
            assert(labels@[y] == r.ids@[e] as int);
            assert(opt[y] == Some(labels@[y] as u32));
            assert(!is_noise(grouped, y));
        }
        assert forall|x: int, e1: int, e2: int| #[trigger] in_cluster(r, x, e1) && #[trigger] in_cluster(r, x, e2) implies e1 == e2 by {
            let w = choose|w: int| 0 <= w < r.clusters@[e1]@.len() && r.clusters@[e1]@[w] == x as usize;
            let y = r.clusters@[e1]@[w] as int;
            assert(y < n);
            assert(r.clusters@[e1]@.contains(y as usize));
            assert(r.clusters@[e2]@.contains(y as usize));
            assert(labels@[y] == r.ids@[e1] as int);
            assert(labels@[y] == r.ids@[e2] as int);
            if e1 < e2 {
                assert(r.ids@[e1] < r.ids@[e2]);
            } else if e2 < e1 {
                assert(r.ids@[e2] < r.ids@[e1]);
            }
        }
        assert forall|x: int| 0 <= x < n implies (is_noise(r, x) <==> (#[trigger] labels@[x]) < 0) by {
            assert(is_noise(grouped, x) <==> opt[x] is None);
        }
    }
    r
}

} // verus!

verus! {

/// Every one of the points `0..n` as noise, and no cluster.
pub fn all_noise(n: usize) -> (r: ClusterIndices)
    ensures
        r.clusters@.len() == 0,
        r.ids@.len() == 0,
        r.noise_indices@ == Seq::new(n as nat, |i: int| i as usize),
        partitions_points(r, n as int),
{
    let mut noise: Vec<usize> = Vec::new();
    let mut i: usize = 0;
    while i < n
        invariant
            i <= n,
            noise@ == Seq::new(i as nat, |j: int| j as usize),
        decreases n - i,
    {
        noise.push(i);
        i = i + 1;
        proof {
            assert(noise@ =~= Seq::new(i as nat, |j: int| j as usize));
        }
    }
    let r = ClusterIndices { ids: Vec::new(), clusters: Vec::new(), noise_indices: noise };
    proof {
        assert forall|x: int| 0 <= x < n implies is_noise(r, x) || exists|k: int| #[trigger] in_cluster(r, x, k) by {
            assert(r.noise_indices@[x] == x as usize);
        }
    }
    r
}

/// The result HDBSCAN is not run for: no points gives no clusters and no
/// noise, fewer points than `min_cluster_size` leaves all of them noise.
/// `None` when the points have to be clustered.
pub fn hdbscan_shortcut(n: usize, min_cluster_size: usize) -> (r: Option<ClusterIndices>)
    ensures
        r is Some <==> (n == 0 || n < min_cluster_size),
        r matches Some(c) ==> c.clusters@.len() == 0 && c.ids@.len() == 0
            && c.noise_indices@ == Seq::new(n as nat, |i: int| i as usize),
{
    if n == 0 {
        let r = all_noise(0);
        return Some(r);
    }
    if n < min_cluster_size {
        return Some(all_noise(n));
    }
    None
}

/// The smaller of `a` and `b`.
pub open spec fn spec_min(a: int, b: int) -> int {
    if a <= b { a } else { b }
}

/// The larger of `a` and `b`.
pub open spec fn spec_max(a: int, b: int) -> int {
    if a >= b { a } else { b }
}

/// Neighbour count handed to HDBSCAN: `min_samples` capped at one less than
/// the number of points and raised to at least one.
pub fn clamp_min_samples(min_samples: usize, n: usize) -> (r: usize)
    ensures
        r == spec_max(1, spec_min(min_samples as int, spec_max(n - 1, 0))),
{
    let cap = n.saturating_sub(1);
    let m = if min_samples < cap { min_samples } else { cap };
    if m < 1 { 1 } else { m }
}

} // verus!
