use vstd::prelude::*;

verus! {

/// Every edge `(v, w)` of the adjacency lists leads to a node of the graph
/// and has a non-negative weight.
pub open spec fn valid_graph(g: Seq<Vec<(usize, i64)>>) -> bool {
    forall|u: int, k: int|
        0 <= u < g.len() && 0 <= k < g[u]@.len() ==> (#[trigger] g[u]@[k]).0 < g.len()
            && g[u]@[k].1 >= 0
}

/// Where a walk from `s` ends. A walk is a sequence of `(node, edge index)`
/// steps, each taking edge `g[node][edge index]`.
pub open spec fn walk_end(g: Seq<Vec<(usize, i64)>>, s: int, p: Seq<(int, int)>) -> int {
    if p.len() == 0 {
        s
    } else {
        g[p.last().0]@[p.last().1].0 as int
    }
}

/// `p` is a walk in `g` that starts at `s`.
pub open spec fn is_walk(g: Seq<Vec<(usize, i64)>>, s: int, p: Seq<(int, int)>) -> bool
    decreases p.len(),
{
    if p.len() == 0 {
        true
    } else {
        let u = p.last().0;
        let k = p.last().1;
        &&& is_walk(g, s, p.drop_last())
        &&& u == walk_end(g, s, p.drop_last())
        &&& 0 <= u < g.len()
        &&& 0 <= k < g[u]@.len()
    }
}

/// The total weight of the edges of a walk.
pub open spec fn walk_weight(g: Seq<Vec<(usize, i64)>>, p: Seq<(int, int)>) -> int
    decreases p.len(),
{
    if p.len() == 0 {
        0
    } else {
        walk_weight(g, p.drop_last()) + g[p.last().0]@[p.last().1].1
    }
}

/// Some walk from `s` to `v` weighs exactly `d`.
pub open spec fn walk_of_weight(g: Seq<Vec<(usize, i64)>>, s: int, v: int, d: int) -> bool {
    exists|p: Seq<(int, int)>|
        #[trigger] is_walk(g, s, p) && walk_end(g, s, p) == v && walk_weight(g, p) == d
}

/// No edge out of `u` leads to a node whose distance it would shorten.
pub open spec fn relaxed(g: Seq<Vec<(usize, i64)>>, dis: Seq<i64>, u: int) -> bool {
    forall|k: int|
        0 <= k < g[u]@.len() ==> dis[(#[trigger] g[u]@[k]).0 as int] <= dis[u] + g[u]@[k].1
}

/// The sum of the entries of `s`.
spec fn total(s: Seq<i64>) -> int
    decreases s.len(),
{
    if s.len() == 0 {
        0
    } else {
        total(s.drop_last()) + s.last()
    }
}

/// Replacing one entry changes the sum by the difference.
proof fn lemma_total_update(s: Seq<i64>, i: int, x: i64)
    requires
        0 <= i < s.len(),
    ensures
        total(s.update(i, x)) == total(s) - s[i] + x,
    decreases s.len(),
{
    let t = s.update(i, x);
    if i < s.len() - 1 {
        assert(t.drop_last() =~= s.drop_last().update(i, x));
        lemma_total_update(s.drop_last(), i, x);
    } else {
        assert(t.drop_last() =~= s.drop_last());
    }
}

/// Non-negative entries have a non-negative sum.
proof fn lemma_total_nonneg(s: Seq<i64>)
    requires
        forall|i: int| 0 <= i < s.len() ==> s[i] >= 0,
    ensures
        total(s) >= 0,
    decreases s.len(),
{
    if s.len() > 0 {
        lemma_total_nonneg(s.drop_last());
    }
}

/// Extending a walk to `u` by edge `k` of `u`.
proof fn lemma_walk_extend(g: Seq<Vec<(usize, i64)>>, s: int, u: int, k: int, d: int)
    requires
        walk_of_weight(g, s, u, d),
        0 <= u < g.len(),
        0 <= k < g[u]@.len(),
    ensures
        walk_of_weight(g, s, g[u]@[k].0 as int, d + g[u]@[k].1),
{
    let p = choose|p: Seq<(int, int)>|
        #[trigger] is_walk(g, s, p) && walk_end(g, s, p) == u && walk_weight(g, p) == d;
    let q = p.push((u, k));
    assert(q.drop_last() =~= p);
    assert(is_walk(g, s, q));
}

/// `e` orders after `f` in the queue: larger first component, then larger node.
pub open spec fn entry_after(e: (i64, usize), f: (i64, usize)) -> bool {
    e.0 > f.0 || (e.0 == f.0 && e.1 > f.1)
}

/// The index of the greatest entry, as a max-heap would pop it.
fn max_entry(que: &Vec<(i64, usize)>) -> (idx: usize)
    requires
        que.len() > 0,
    ensures
        idx < que.len(),
        forall|j: int| 0 <= j < que.len() ==> !entry_after(#[trigger] que@[j], que@[idx as int]),
{
    let mut best: usize = 0;
    let mut i: usize = 1;
    while i < que.len()
        invariant
            best < i <= que.len(),
            forall|j: int| 0 <= j < i ==> !entry_after(#[trigger] que@[j], que@[best as int]),
        decreases que.len() - i,
    {
        let e = que[i];
        let b = que[best];
        if e.0 > b.0 || (e.0 == b.0 && e.1 > b.1) {
            best = i;
        }
        i = i + 1;
    }
    best
}

/// An entry other than the removed one survives a `swap_remove`.
proof fn lemma_swap_remove_keeps(s: Seq<(i64, usize)>, i: int, e: (i64, usize))
    requires
        0 <= i < s.len(),
        s.contains(e),
        e != s[i],
    ensures
        s.update(i, s.last()).drop_last().contains(e),
{
    let t = s.update(i, s.last()).drop_last();
    let j = choose|j: int| 0 <= j < s.len() && s[j] == e;
    if j == s.len() - 1 {
        assert(t[i] == e);
    } else {
        assert(t[j] == e);
    }
}

/// Shortest distances from `source` by Dijkstra's algorithm over adjacency
/// lists of `(target, weight)` edges with non-negative weights; `i64::MAX`
/// marks a node that cannot be reached.
///
/// Every finite distance is the weight of some walk from `source`, and no
/// edge out of a reached node can shorten a distance; together these make
/// each entry the least weight of a walk to its node.
pub fn dijkstra_sssp(graph: Vec<Vec<(usize, i64)>>, source: usize) -> (dis: Vec<i64>)
    requires
        source < graph.len(),
        valid_graph(graph@),
    ensures
        dis.len() == graph.len(),
        dis@[source as int] == 0,
        forall|v: int| 0 <= v < dis.len() ==> 0 <= #[trigger] dis@[v] <= i64::MAX,
        forall|v: int|
            0 <= v < dis.len() && #[trigger] dis@[v] < i64::MAX ==> walk_of_weight(
                graph@,
                source as int,
                v,
                dis@[v] as int,
            ),
        forall|u: int| 0 <= u < dis.len() && #[trigger] dis@[u] < i64::MAX ==> relaxed(graph@, dis@, u),
{
    let ghost g = graph@;
    let n = graph.len();
    let mut dis: Vec<i64> = Vec::new();
    let mut i: usize = 0;
    while i < n
        invariant
            i <= n,
            dis.len() == i,
            forall|j: int| 0 <= j < i ==> dis@[j] == i64::MAX,
        decreases n - i,
    {
        dis.push(i64::MAX);
        i = i + 1;
    }
    dis.set(source, 0);
    let mut que: Vec<(i64, usize)> = Vec::new();
    que.push((0, source));
    proof {
        let p = Seq::<(int, int)>::empty();
        assert(is_walk(g, source as int, p));
        assert(walk_weight(g, p) == 0);
        assert(que@[0] == (0i64, source));
    }
    while que.len() > 0
        invariant
            g == graph@,
            valid_graph(g),
            n == g.len(),
            source < n,
            dis.len() == n,
            dis@[source as int] == 0,
            forall|v: int| 0 <= v < n ==> 0 <= #[trigger] dis@[v] <= i64::MAX,
            forall|v: int|
                0 <= v < n && #[trigger] dis@[v] < i64::MAX ==> walk_of_weight(
                    g,
                    source as int,
                    v,
                    dis@[v] as int,
                ),
            forall|j: int|
                0 <= j < que.len() ==> (#[trigger] que@[j]).1 < n && -i64::MAX < que@[j].0 <= 0
                    && dis@[que@[j].1 as int] <= -que@[j].0,
            forall|u: int|
                0 <= u < n && #[trigger] dis@[u] < i64::MAX ==> que@.contains(
                    ((-dis@[u]) as i64, u as usize),
                ) || relaxed(g, dis@, u),
        decreases total(dis@), que.len(),
    {
        let idx = max_entry(&que);
        let ghost before = que@;
        let (f, u) = que.swap_remove(idx);
        proof {
            assert forall|x: int|
                0 <= x < n && #[trigger] dis@[x] < i64::MAX && !relaxed(g, dis@, x) && x != u
                    implies que@.contains(((-dis@[x]) as i64, x as usize)) by {
                lemma_swap_remove_keeps(before, idx as int, ((-dis@[x]) as i64, x as usize));
            }
            assert forall|j: int| 0 <= j < que.len() implies (#[trigger] que@[j]).1 < n && -i64::MAX
                < que@[j].0 <= 0 && dis@[que@[j].1 as int] <= -que@[j].0 by {
                if j == idx {
                    assert(que@[j] == before[before.len() - 1]);
                } else {
                    assert(que@[j] == before[j]);
                }
            }
        }
        if -f > dis[u] {
            proof {
                let x = u as int;
                if dis@[x] < i64::MAX && !relaxed(g, dis@, x) {
                    lemma_swap_remove_keeps(before, idx as int, ((-dis@[x]) as i64, x as usize));
                }
                lemma_total_nonneg(dis@);
            }
        } else {
            let du = dis[u];
            let ghost t0 = total(dis@);
            let ghost len0 = que.len();
            let ghost dis0 = dis@;
            let edges = &graph[u];
            let mut k: usize = 0;
            proof {
                lemma_total_nonneg(dis@);
            }
            while k < edges.len()
                invariant
                    g == graph@,
                    valid_graph(g),
                    n == g.len(),
                    source < n,
                    u < n,
                    edges@ == g[u as int]@,
                    dis.len() == n,
                    dis@[source as int] == 0,
                    dis@[u as int] == du,
                    0 <= du < i64::MAX,
                    k <= edges.len(),
                    forall|v: int| 0 <= v < n ==> 0 <= #[trigger] dis@[v] <= i64::MAX,
                    forall|v: int|
                        0 <= v < n && #[trigger] dis@[v] < i64::MAX ==> walk_of_weight(
                            g,
                            source as int,
                            v,
                            dis@[v] as int,
                        ),
                    forall|j: int|
                        0 <= j < que.len() ==> (#[trigger] que@[j]).1 < n && -i64::MAX < que@[j].0
                            <= 0 && dis@[que@[j].1 as int] <= -que@[j].0,
                    forall|x: int|
                        0 <= x < n && x != u && #[trigger] dis@[x] < i64::MAX ==> que@.contains(
                            ((-dis@[x]) as i64, x as usize),
                        ) || relaxed(g, dis@, x),
                    forall|kk: int|
                        0 <= kk < k ==> dis@[(#[trigger] g[u as int]@[kk]).0 as int] <= du
                            + g[u as int]@[kk].1,
                    total(dis@) <= t0,
                    que.len() - len0 <= t0 - total(dis@),
                    forall|v: int| 0 <= v < n ==> #[trigger] dis@[v] <= dis0[v],
                decreases edges.len() - k,
            {
                let (v, w) = edges[k];
                proof {
                    assert(g[u as int]@[k as int] == (v, w));
                }
                if w < dis[v] - du {
                    let nd = du + w;
                    let ghost old_dis = dis@;
                    let ghost old_que = que@;
                    proof {
                        lemma_walk_extend(g, source as int, u as int, k as int, du as int);
                        lemma_total_update(dis@, v as int, nd);
                    }
                    let entry: (i64, usize) = (-nd, v);
                    dis.set(v, nd);
                    que.push(entry);
                    proof {
                        assert(que@[que.len() - 1] == entry);
                        assert forall|j: int| 0 <= j < que.len() implies (#[trigger] que@[j]).1 < n
                            && -i64::MAX < que@[j].0 <= 0 && dis@[que@[j].1 as int] <= -que@[j].0 by {
                            if j < que.len() - 1 {
                                assert(que@[j] == old_que[j]);
                            }
                        }
                        assert forall|x: int|
                            0 <= x < n && x != u && #[trigger] dis@[x] < i64::MAX implies que@.contains(
                                ((-dis@[x]) as i64, x as usize),
                            ) || relaxed(g, dis@, x) by {
                            if x == v {
                                assert(que@[que.len() - 1] == ((-dis@[x]) as i64, x as usize));
                            } else if old_que.contains(((-dis@[x]) as i64, x as usize)) {
                                let j = choose|j: int|
                                    0 <= j < old_que.len() && old_que[j] == ((-dis@[x]) as i64, x as usize);
                                assert(que@[j] == old_que[j]);
                            } else {
                                assert(relaxed(g, old_dis, x));
                                assert forall|kk: int| 0 <= kk < g[x]@.len() implies dis@[(
                                #[trigger] g[x]@[kk]).0 as int] <= dis@[x] + g[x]@[kk].1 by {
                                    assert(old_dis[g[x]@[kk].0 as int] <= old_dis[x] + g[x]@[kk].1);
                                }
                            }
                        }
                    }
                }
                k = k + 1;
            }
            proof {
                assert(relaxed(g, dis@, u as int));
                lemma_total_nonneg(dis@);
            }
        }
    }
    dis
}

} // verus!
