//! Reachability in a small directed graph given as an adjacency matrix.
use vstd::prelude::*;

verus! {

/// `adj` has an edge from `u` to `v`.
pub open spec fn has_edge(adj: Seq<Vec<bool>>, u: int, v: int) -> bool {
    0 <= u < adj.len() && 0 <= v < adj[u]@.len() && adj[u]@[v]
}

/// `adj` is a square matrix over `n` nodes.
pub open spec fn is_square(adj: Seq<Vec<bool>>, n: int) -> bool {
    adj.len() == n && forall|u: int| 0 <= u < n ==> (#[trigger] adj[u])@.len() == n
}

/// `p` is a walk: a non-empty sequence of nodes, each joined to the next by an edge.
pub open spec fn is_walk(adj: Seq<Vec<bool>>, p: Seq<int>) -> bool {
    &&& p.len() >= 1
    &&& forall|i: int| 0 <= i < p.len() ==> 0 <= #[trigger] p[i] < adj.len()
    &&& forall|i: int| 0 <= i < p.len() - 1 ==> #[trigger] has_edge(adj, p[i], p[i + 1])
}

/// Some walk of at least one edge leads from `a` to `b`.
pub open spec fn reaches(adj: Seq<Vec<bool>>, a: int, b: int) -> bool {
    exists|p: Seq<int>| #[trigger] is_walk(adj, p) && p.len() >= 2 && p[0] == a && p[p.len() - 1] == b
}

/// The number of `true` entries.
pub open spec fn count_true(s: Seq<bool>) -> nat
    decreases s.len(),
{
    if s.len() == 0 {
        0
    } else {
        count_true(s.drop_last()) + if s.last() { 1nat } else { 0nat }
    }
}

proof fn lemma_count_true_bound(s: Seq<bool>)
    ensures
        count_true(s) <= s.len(),
    decreases s.len(),
{
    if s.len() > 0 {
        lemma_count_true_bound(s.drop_last());
    }
}

proof fn lemma_count_true_update(s: Seq<bool>, j: int)
    requires
        0 <= j < s.len(),
        !s[j],
    ensures
        count_true(s.update(j, true)) == count_true(s) + 1,
    decreases s.len(),
{
    let t = s.update(j, true);
    if j == s.len() - 1 {
        assert(t.drop_last() =~= s.drop_last());
    } else {
        lemma_count_true_update(s.drop_last(), j);
        assert(t.drop_last() =~= s.drop_last().update(j, true));
    }
}

/// A set of nodes that holds every successor of `u` and every successor of its own
/// members holds every node that `u` reaches.
proof fn lemma_closed_holds_reached(adj: Seq<Vec<bool>>, n: int, u: int, set: Seq<bool>, p: Seq<int>)
    requires
        is_square(adj, n),
        set.len() == n,
        0 <= u < n,
        forall|v: int| 0 <= v < n && #[trigger] has_edge(adj, u, v) ==> set[v],
        forall|x: int, v: int| 0 <= x < n && 0 <= v < n && set[x] && #[trigger] has_edge(adj, x, v) ==> set[v],
        is_walk(adj, p),
        p.len() >= 2,
        p[0] == u,
    ensures
        set[p[p.len() - 1]],
    decreases p.len(),
{
    if p.len() > 2 {
        let q = p.drop_last();
        assert(is_walk(adj, q)) by {
            assert forall|i: int| 0 <= i < q.len() - 1 implies #[trigger] has_edge(adj, q[i], q[i + 1]) by {
                assert(has_edge(adj, p[i], p[i + 1]));
            }
        }
        lemma_closed_holds_reached(adj, n, u, set, q);
        let i = p.len() - 2;
        assert(has_edge(adj, p[i], p[i + 1]));
    } else {
        assert(has_edge(adj, p[0], p[0int + 1]));
    }
}

/// Whether node `u` lies on a cycle: some walk of at least one edge leads from `u` back to `u`.
pub fn reaches_itself(adj: &Vec<Vec<bool>>, u: usize) -> (r: bool)
    requires
        is_square(adj@, adj@.len() as int),
        u < adj@.len(),
    ensures
        r == reaches(adj@, u as int, u as int),
{
    let n = adj.len();
    let ghost g = adj@;
    let mut visited: Vec<bool> = Vec::new();
    let mut stack: Vec<usize> = Vec::new();
    for v in 0..n
        invariant
            n == g.len(),
            g == adj@,
            is_square(g, n as int),
            u < n,
            visited@.len() == v,
            forall|x: int| 0 <= x < v ==> #[trigger] visited@[x] == has_edge(g, u as int, x),
            forall|t: int| 0 <= t < stack@.len() ==> #[trigger] stack@[t] < v && visited@[stack@[t] as int],
            forall|x: int| 0 <= x < v && #[trigger] visited@[x] ==> stack@.contains(x as usize),
    {
        let ghost s0 = stack@;
        if adj[u][v] {
            visited.push(true);
            stack.push(v);
        } else {
            visited.push(false);
        }
        assert forall|x: int| 0 <= x <= v && #[trigger] visited@[x] implies stack@.contains(x as usize) by {
            if x == v {
                assert(stack@[stack@.len() - 1] == v);
            } else {
                assert(s0.contains(x as usize));
                let q = choose|q: int| 0 <= q < s0.len() && s0[q] == x as usize;
                assert(stack@[q] == x as usize);
            }
        }
    }
    // every visited node is reached from `u`
    assert forall|x: int| 0 <= x < n && #[trigger] visited@[x] implies reaches(g, u as int, x) by {
        let p = seq![u as int, x];
        assert(has_edge(g, p[0], p[1]));
        assert(is_walk(g, p));
    }
    proof {
        lemma_count_true_bound(visited@);
    }
    while stack.len() > 0
        invariant
            n == g.len(),
            g == adj@,
            is_square(g, n as int),
            u < n,
            visited@.len() == n,
            forall|v: int| 0 <= v < n && #[trigger] has_edge(g, u as int, v) ==> visited@[v],
            forall|t: int| 0 <= t < stack@.len() ==> #[trigger] stack@[t] < n && visited@[stack@[t] as int],
            forall|x: int| 0 <= x < n && #[trigger] visited@[x] ==> reaches(g, u as int, x),
            forall|x: int, v: int|
                0 <= x < n && 0 <= v < n && visited@[x] && !stack@.contains(x as usize) && #[trigger] has_edge(g, x, v)
                    ==> visited@[v],
            count_true(visited@) <= n,
        decreases 2 * (n - count_true(visited@)) + stack@.len(),
    {
        let ghost m0 = 2 * (n - count_true(visited@)) + stack@.len();
        let ghost before_pop = stack@;
        let x = stack.pop().unwrap();
        let ghost popped = stack@;
        proof {
            assert(before_pop == popped.push(x));
            assert forall|y: int| 0 <= y < n && y != x && !#[trigger] popped.contains(y as usize) implies !before_pop.contains(y as usize) by {
                if before_pop.contains(y as usize) {
                    let q = choose|q: int| 0 <= q < before_pop.len() && before_pop[q] == y as usize;
                    if q < popped.len() {
                        assert(popped[q] == y as usize);
                    }
                }
            }
        }
        for v in 0..n
            invariant
                n == g.len(),
                g == adj@,
                is_square(g, n as int),
                u < n,
                x < n,
                visited@.len() == n,
                visited@[x as int],
                forall|v: int| 0 <= v < n && #[trigger] has_edge(g, u as int, v) ==> visited@[v],
                forall|t: int| 0 <= t < stack@.len() ==> #[trigger] stack@[t] < n && visited@[stack@[t] as int],
                forall|y: int| 0 <= y < n && #[trigger] visited@[y] ==> reaches(g, u as int, y),
                forall|y: int, w: int|
                    0 <= y < n && 0 <= w < n && visited@[y] && y != x && !stack@.contains(y as usize)
                        && #[trigger] has_edge(g, y, w) ==> visited@[w],
                forall|w: int| 0 <= w < v && #[trigger] has_edge(g, x as int, w) ==> visited@[w],
                stack@.len() >= popped.len(),
                forall|t: int| 0 <= t < popped.len() ==> stack@[t] == #[trigger] popped[t],
                count_true(visited@) <= n,
                2 * (n - count_true(visited@)) + stack@.len() < m0,
        {
            if adj[x][v] && !visited[v] {
                let ghost vis0 = visited@;
                let ghost st0 = stack@;
                proof {
                    lemma_count_true_update(vis0, v as int);
                    lemma_count_true_bound(vis0.update(v as int, true));
                    let p = choose|p: Seq<int>| #[trigger] is_walk(g, p) && p.len() >= 2 && p[0] == u as int && p[p.len() - 1] == x as int;
                    let q = p.push(v as int);
                    assert(has_edge(g, x as int, v as int));
                    assert(is_walk(g, q)) by {
                        assert forall|i: int| 0 <= i < q.len() - 1 implies #[trigger] has_edge(g, q[i], q[i + 1]) by {
                            if i < p.len() - 1 {
                                assert(has_edge(g, p[i], p[i + 1]));
                            }
                        }
                    }
                }
                visited.set(v, true);
                stack.push(v);
                proof {
                    assert forall|y: int, w: int|
                        0 <= y < n && 0 <= w < n && visited@[y] && y != x && !stack@.contains(y as usize)
                            && #[trigger] has_edge(g, y, w) implies visited@[w] by {
                        if y != v {
                            if st0.contains(y as usize) {
                                let q = choose|q: int| 0 <= q < st0.len() && st0[q] == y as usize;
                                assert(stack@[q] == y as usize);
                            }
                        } else {
                            assert(stack@[stack@.len() - 1] == v);
                        }
                    }
                }
            }
        }
        proof {
            assert forall|y: int, w: int|
                0 <= y < n && 0 <= w < n && visited@[y] && !stack@.contains(y as usize) && #[trigger] has_edge(g, y, w)
                    implies visited@[w] by {}
        }
    }
    proof {
        if reaches(g, u as int, u as int) {
            let p = choose|p: Seq<int>| #[trigger] is_walk(g, p) && p.len() >= 2 && p[0] == u as int && p[p.len() - 1] == u as int;
            lemma_closed_holds_reached(g, n as int, u as int, visited@, p);
        }
    }
    visited[u]
}

} // verus!
