//! Reachability in a directed graph given as a square boolean matrix:
//! `j` is reachable from `i` when a path of at least one edge leads from
//! `i` to `j`.

use vstd::prelude::*;

verus! {

/// The matrix view of an adjacency matrix held in vectors.
pub open spec fn matrix_view(adj: Seq<Vec<bool>>) -> Seq<Seq<bool>> {
    adj.map_values(|row: Vec<bool>| row@)
}

/// Every row is as long as the matrix is tall.
pub open spec fn is_square(adj: Seq<Seq<bool>>) -> bool {
    forall|i: int| 0 <= i < adj.len() ==> #[trigger] adj[i].len() == adj.len()
}

/// The `k`-th step of `p` is an edge.
pub open spec fn step(adj: Seq<Seq<bool>>, p: Seq<int>, k: int) -> bool {
    adj[p[k]][p[k + 1]]
}

/// `p` is a path of at least one edge over the nodes of `adj`.
pub open spec fn is_path(adj: Seq<Seq<bool>>, p: Seq<int>) -> bool {
    &&& p.len() >= 2
    &&& forall|k: int| 0 <= k < p.len() ==> 0 <= #[trigger] p[k] < adj.len()
    &&& forall|k: int| 0 <= k < p.len() - 1 ==> #[trigger] step(adj, p, k)
}

/// A path of at least one edge leads from `i` to `j`.
pub open spec fn reach(adj: Seq<Seq<bool>>, i: int, j: int) -> bool {
    exists|p: Seq<int>| #[trigger] is_path(adj, p) && p[0] == i && p.last() == j
}

/// The undirected version of `adj`: an edge either way.
pub open spec fn symmetric(adj: Seq<Seq<bool>>) -> Seq<Seq<bool>> {
    Seq::new(adj.len(), |i: int| Seq::new(adj.len(), |j: int| adj[i][j] || adj[j][i]))
}

/// `i` and `j` lie in one connected component of the undirected graph.
pub open spec fn linked(adj: Seq<Seq<bool>>, i: int, j: int) -> bool {
    i == j || reach(symmetric(adj), i, j)
}

/// An edge is a path.
pub proof fn lemma_edge_reach(adj: Seq<Seq<bool>>, i: int, j: int)
    requires
        is_square(adj),
        0 <= i < adj.len(),
        0 <= j < adj.len(),
        adj[i][j],
    ensures
        reach(adj, i, j),
{
    let p = seq![i, j];
    assert(step(adj, p, 0));
    assert(is_path(adj, p));
}

/// A path extended by an edge is a path.
pub proof fn lemma_reach_step(adj: Seq<Seq<bool>>, i: int, u: int, v: int)
    requires
        is_square(adj),
        reach(adj, i, u),
        0 <= v < adj.len(),
        adj[u][v],
    ensures
        reach(adj, i, v),
{
    let p = choose|p: Seq<int>| #[trigger] is_path(adj, p) && p[0] == i && p.last() == u;
    let q = p.push(v);
    assert forall|k: int| 0 <= k < q.len() - 1 implies #[trigger] step(adj, q, k) by {
        if k < p.len() - 1 {
            assert(step(adj, p, k));
        }
    }
    assert(is_path(adj, q));
}

/// Paths compose.
pub proof fn lemma_reach_trans(adj: Seq<Seq<bool>>, i: int, j: int, k: int)
    requires
        reach(adj, i, j),
        reach(adj, j, k),
    ensures
        reach(adj, i, k),
{
    let p = choose|p: Seq<int>| #[trigger] is_path(adj, p) && p[0] == i && p.last() == j;
    let q = choose|q: Seq<int>| #[trigger] is_path(adj, q) && q[0] == j && q.last() == k;
    let r = p + q.drop_first();
    assert forall|m: int| 0 <= m < r.len() implies 0 <= #[trigger] r[m] < adj.len() by {
        if m >= p.len() {
            assert(r[m] == q[m - p.len() + 1]);
        }
    }
    assert forall|m: int| 0 <= m < r.len() - 1 implies #[trigger] step(adj, r, m) by {
        if m < p.len() - 1 {
            assert(step(adj, p, m));
        } else if m == p.len() - 1 {
            assert(step(adj, q, 0));
            assert(r[m] == q[0]);
            assert(r[m + 1] == q[1]);
        } else {
            let t = m - p.len() + 1;
            assert(step(adj, q, t));
            assert(r[m] == q[t]);
            assert(r[m + 1] == q[t + 1]);
        }
    }
    assert(is_path(adj, r));
}

/// In the undirected graph a path can be walked backwards.
pub proof fn lemma_reach_symmetric(adj: Seq<Seq<bool>>, i: int, j: int)
    requires
        reach(symmetric(adj), i, j),
    ensures
        reach(symmetric(adj), j, i),
{
    let s = symmetric(adj);
    let p = choose|p: Seq<int>| #[trigger] is_path(s, p) && p[0] == i && p.last() == j;
    let q = p.reverse();
    assert forall|m: int| 0 <= m < q.len() implies 0 <= #[trigger] q[m] < s.len() by {
        assert(q[m] == p[p.len() - 1 - m]);
    }
    assert forall|m: int| 0 <= m < q.len() - 1 implies #[trigger] step(s, q, m) by {
        let t = p.len() - 2 - m;
        assert(step(s, p, t));
        assert(q[m] == p[t + 1]);
        assert(q[m + 1] == p[t]);
    }
    assert(is_path(s, q));
}

/// Being in one component is an equivalence.
pub proof fn lemma_linked_equiv(adj: Seq<Seq<bool>>)
    ensures
        forall|i: int, j: int| #[trigger] linked(adj, i, j) ==> linked(adj, j, i),
        forall|i: int, j: int, k: int|
            #[trigger] linked(adj, i, j) && #[trigger] linked(adj, j, k) ==> linked(adj, i, k),
{
    assert forall|i: int, j: int| #[trigger] linked(adj, i, j) implies linked(adj, j, i) by {
        if i != j {
            lemma_reach_symmetric(adj, i, j);
        }
    }
    assert forall|i: int, j: int, k: int|
        #[trigger] linked(adj, i, j) && #[trigger] linked(adj, j, k) implies linked(adj, i, k) by {
        if i != j && j != k {
            lemma_reach_trans(symmetric(adj), i, j, k);
        }
    }
}

/// Every node on a path from `i` lies in a set that holds the successors
/// of `i` and is closed under edges.
proof fn lemma_path_inside(adj: Seq<Seq<bool>>, vis: Seq<bool>, p: Seq<int>, k: int)
    requires
        is_square(adj),
        vis.len() == adj.len(),
        is_path(adj, p),
        1 <= k < p.len(),
        forall|j: int| 0 <= j < adj.len() && adj[p[0]][j] ==> vis[j],
        forall|u: int, v: int| 0 <= u < adj.len() && 0 <= v < adj.len() && vis[u] && adj[u][v] ==> vis[v],
    ensures
        vis[p[k]],
    decreases k,
{
    assert(0 <= p[k] < adj.len());
    assert(step(adj, p, k - 1));
    if k > 1 {
        lemma_path_inside(adj, vis, p, k - 1);
        assert(0 <= p[k - 1] < adj.len());
    }
}

/// The number of `true` entries.
pub open spec fn count_true(s: Seq<bool>) -> nat
    decreases s.len(),
{
    if s.len() == 0 {
        0
    } else {
        count_true(s.drop_last()) + if s.last() {
            1nat
        } else {
            0nat
        }
    }
}

proof fn lemma_count_true_bound(s: Seq<bool>)
    ensures
        count_true(s) <= s.len(),
    decreases s.len(),
{
    if s.len() > 0 {
        lemma_count_true_bound(s.drop_last());
    }
}

proof fn lemma_count_true_set(s: Seq<bool>, v: int)
    requires
        0 <= v < s.len(),
        !s[v],
    ensures
        count_true(s.update(v, true)) == count_true(s) + 1,
    decreases s.len(),
{
    let t = s.update(v, true);
    if v == s.len() - 1 {
        assert(t.drop_last() =~= s.drop_last());
    } else {
        lemma_count_true_set(s.drop_last(), v);
        assert(t.drop_last() =~= s.drop_last().update(v, true));
    }
}

/// One pass adding every successor of a node of `vis`; says whether
/// anything was added.
fn relax(adj: &Vec<Vec<bool>>, vis: &mut Vec<bool>, Ghost(i): Ghost<int>) -> (added: bool)
    requires
        is_square(matrix_view(adj@)),
        old(vis)@.len() == adj@.len(),
        0 <= i < adj@.len(),
        forall|j: int| 0 <= j < adj@.len() && old(vis)@[j] ==> reach(matrix_view(adj@), i, j),
    ensures
        final(vis)@.len() == adj@.len(),
        forall|j: int| 0 <= j < adj@.len() && old(vis)@[j] ==> final(vis)@[j],
        forall|j: int| 0 <= j < adj@.len() && final(vis)@[j] ==> reach(matrix_view(adj@), i, j),
        added ==> count_true(final(vis)@) > count_true(old(vis)@),
        !added ==> forall|u: int, v: int|
            0 <= u < adj@.len() && 0 <= v < adj@.len() && final(vis)@[u] && matrix_view(adj@)[u][v]
                ==> final(vis)@[v],
{
    let ghost m = matrix_view(adj@);
    let ghost start = vis@;
    let n = adj.len();
    let mut added = false;
    let mut u: usize = 0;
    while u < n
        invariant
            n == adj@.len(),
            m == matrix_view(adj@),
            is_square(m),
            0 <= i < n,
            u <= n,
            vis@.len() == n,
            forall|j: int| 0 <= j < n && start[j] ==> vis@[j],
            forall|j: int| 0 <= j < n && vis@[j] ==> reach(m, i, j),
            added ==> count_true(vis@) > count_true(start),
            !added ==> vis@ == start,
            !added ==> forall|a: int, b: int| 0 <= a < u && 0 <= b < n && vis@[a] && m[a][b] ==> vis@[b],
        decreases n - u,
    {
        assert(m[u as int] == adj@[u as int]@);
        assert(adj@[u as int]@.len() == n);
        let mut v: usize = 0;
        while v < n
            invariant
                n == adj@.len(),
                m == matrix_view(adj@),
                is_square(m),
                0 <= i < n,
                u < n,
                v <= n,
                adj@[u as int]@.len() == n,
                vis@.len() == n,
                forall|j: int| 0 <= j < n && start[j] ==> vis@[j],
                forall|j: int| 0 <= j < n && vis@[j] ==> reach(m, i, j),
                added ==> count_true(vis@) > count_true(start),
                !added ==> vis@ == start,
                !added ==> forall|a: int, b: int| 0 <= a < u && 0 <= b < n && vis@[a] && m[a][b] ==> vis@[b],
                !added ==> forall|b: int| 0 <= b < v && vis@[u as int] && m[u as int][b] ==> vis@[b],
            decreases n - v,
        {
            if vis[u] && adj[u][v] && !vis[v] {
                proof {
                    assert(m[u as int][v as int] == adj@[u as int]@[v as int]);
                    lemma_reach_step(m, i, u as int, v as int);
                    lemma_count_true_set(vis@, v as int);
                }
                vis.set(v, true);
                added = true;
            }
            v += 1;
        }
        u += 1;
    }
    added
}

/// The nodes reachable from `i`.
pub fn reach_row(adj: &Vec<Vec<bool>>, i: usize) -> (r: Vec<bool>)
    requires
        is_square(matrix_view(adj@)),
        i < adj@.len(),
    ensures
        r@.len() == adj@.len(),
        forall|j: int| 0 <= j < adj@.len() ==> r@[j] == reach(matrix_view(adj@), i as int, j),
{
    let ghost m = matrix_view(adj@);
    let n = adj.len();
    assert(m[i as int] == adj@[i as int]@);
    let mut vis: Vec<bool> = Vec::new();
    let mut j: usize = 0;
    while j < n
        invariant
            n == adj@.len(),
            m == matrix_view(adj@),
            is_square(m),
            i < n,
            j <= n,
            adj@[i as int]@.len() == n,
            vis@ == m[i as int].subrange(0, j as int),
        decreases n - j,
    {
        vis.push(adj[i][j]);
        j += 1;
        assert(vis@ =~= m[i as int].subrange(0, j as int));
    }
    assert(vis@ =~= m[i as int]);
    proof {
        assert forall|k: int| 0 <= k < n && vis@[k] implies reach(m, i as int, k) by {
            lemma_edge_reach(m, i as int, k);
        }
    }
    loop
        invariant
            n == adj@.len(),
            m == matrix_view(adj@),
            is_square(m),
            i < n,
            vis@.len() == n,
            forall|k: int| 0 <= k < n && m[i as int][k] ==> vis@[k],
            forall|k: int| 0 <= k < n && vis@[k] ==> reach(m, i as int, k),
        decreases n - count_true(vis@),
    {
        proof {
            lemma_count_true_bound(vis@);
        }
        let ghost before = vis@;
        let added = relax(adj, &mut vis, Ghost(i as int));
        proof {
            lemma_count_true_bound(vis@);
        }
        if !added {
            proof {
                assert forall|k: int| 0 <= k < n && reach(m, i as int, k) implies vis@[k] by {
                    let p = choose|p: Seq<int>| #[trigger] is_path(m, p) && p[0] == i && p.last() == k;
                    lemma_path_inside(m, vis@, p, p.len() - 1);
                }
            }
            return vis;
        }
    }
}

} // verus!
