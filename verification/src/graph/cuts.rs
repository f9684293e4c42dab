//! The cuts of the inductive miner over a directly-follows graph (by
//! activity index): the exclusive-choice cut into connected components,
//! the sequence cut into a strict chain, and the loop cut into body and
//! redo activities; and the sub-log of a group of activities.

use vstd::prelude::*;

use crate::graph::dfg::{keep, keep_trace, log_texts, texts};
use crate::graph::reach::{
    is_square, lemma_edge_reach, lemma_linked_equiv, linked, matrix_view,
    reach, reach_row, symmetric,
};

verus! {

/// The indices below `n` that satisfy `p`, ascending.
pub open spec fn index_filter(n: nat, p: spec_fn(int) -> bool) -> Seq<int>
    decreases n,
{
    if n == 0 {
        Seq::empty()
    } else {
        let r = index_filter((n - 1) as nat, p);
        if p(n - 1) {
            r.push(n - 1)
        } else {
            r
        }
    }
}

/// Indices as integers.
pub open spec fn idx(v: Seq<usize>) -> Seq<int> {
    v.map_values(|x: usize| x as int)
}

/// Groups of indices as integers.
pub open spec fn idx_groups(v: Seq<Vec<usize>>) -> Seq<Seq<int>> {
    v.map_values(|g: Vec<usize>| idx(g@))
}

/// The activities at the indices `ix`.
pub open spec fn pick(acts: Seq<Seq<char>>, ix: Seq<int>) -> Seq<Seq<char>> {
    ix.map_values(|i: int| acts[i])
}

/// No node before `l` is in the component of `l`.
pub open spec fn is_leader(adj: Seq<Seq<bool>>, l: int) -> bool {
    forall|j: int| 0 <= j < l ==> !#[trigger] linked(adj, j, l)
}

/// The connected components of the undirected graph, each as its nodes
/// ascending, ordered by their least node.
pub open spec fn components(adj: Seq<Seq<bool>>) -> Seq<Seq<int>> {
    index_filter(adj.len(), |l: int| is_leader(adj, l)).map_values(
        |l: int| index_filter(adj.len(), |k: int| linked(adj, l, k)),
    )
}

/// `i` ends a trace and has an edge to a node that starts one.
pub open spec fn is_redo(adj: Seq<Seq<bool>>, starts: Seq<bool>, ends: Seq<bool>, i: int) -> bool {
    ends[i] && exists|j: int| 0 <= j < adj.len() && #[trigger] adj[i][j] && starts[j]
}

/// The traces of `log` restricted to `g`, the empty ones left out.
pub open spec fn sub_log(log: Seq<Seq<Seq<char>>>, g: Seq<Seq<char>>) -> Seq<Seq<Seq<char>>>
    decreases log.len(),
{
    if log.len() == 0 {
        Seq::empty()
    } else {
        let r = sub_log(log.drop_last(), g);
        let k = keep(log.last(), g);
        if k.len() > 0 {
            r.push(k)
        } else {
            r
        }
    }
}

pub proof fn lemma_index_filter(n: nat, p: spec_fn(int) -> bool)
    ensures
        forall|k: int| 0 <= k < index_filter(n, p).len() ==> 0 <= #[trigger] index_filter(n, p)[k] < n
            && p(index_filter(n, p)[k]),
        forall|k: int, q: int|
            0 <= k < q < index_filter(n, p).len() ==> index_filter(n, p)[k] < index_filter(n, p)[q],
        forall|x: int| 0 <= x < n && p(x) ==> #[trigger] index_filter(n, p).contains(x),
        index_filter(n, p).len() <= n,
    decreases n,
{
    if n > 0 {
        lemma_index_filter((n - 1) as nat, p);
        let r = index_filter((n - 1) as nat, p);
        assert forall|x: int| 0 <= x < n && p(x) implies #[trigger] index_filter(n, p).contains(x) by {
            if x < n - 1 {
                assert(r.contains(x));
                let q = choose|q: int| 0 <= q < r.len() && r[q] == x;
                assert(index_filter(n, p)[q] == x);
            } else {
                assert(index_filter(n, p)[r.len() as int] == x);
            }
        }
    }
}

/// The undirected version of an adjacency matrix.
fn symmetric_of(adj: &Vec<Vec<bool>>) -> (r: Vec<Vec<bool>>)
    requires
        is_square(matrix_view(adj@)),
    ensures
        matrix_view(r@) == symmetric(matrix_view(adj@)),
        is_square(matrix_view(r@)),
{
    let ghost m = matrix_view(adj@);
    let ghost s = symmetric(m);
    let n = adj.len();
    let mut r: Vec<Vec<bool>> = Vec::new();
    let mut i: usize = 0;
    while i < n
        invariant
            n == adj@.len(),
            m == matrix_view(adj@),
            s == symmetric(m),
            is_square(m),
            i <= n,
            r@.len() == i,
            forall|k: int| 0 <= k < i ==> #[trigger] r@[k]@ == s[k],
        decreases n - i,
    {
        let mut row: Vec<bool> = Vec::new();
        let mut j: usize = 0;
        assert(adj@[i as int]@ == m[i as int]);
        while j < n
            invariant
                n == adj@.len(),
                m == matrix_view(adj@),
                s == symmetric(m),
                is_square(m),
                i < n,
                j <= n,
                row@ == s[i as int].subrange(0, j as int),
            decreases n - j,
        {
            assert(adj@[i as int]@ == m[i as int]);
            assert(adj@[j as int]@ == m[j as int]);
            row.push(adj[i][j] || adj[j][i]);
            j += 1;
            assert(row@ =~= s[i as int].subrange(0, j as int));
        }
        assert(row@ =~= s[i as int]);
        r.push(row);
        i += 1;
    }
    assert(matrix_view(r@) =~= s);
    r
}

/// The exclusive-choice cut: the connected components of the undirected
/// graph, when there are at least two.
pub fn xor_cut(adj: &Vec<Vec<bool>>) -> (r: Option<Vec<Vec<usize>>>)
    requires
        is_square(matrix_view(adj@)),
    ensures
        r is Some <==> components(matrix_view(adj@)).len() > 1,
        r matches Some(g) ==> idx_groups(g@) == components(matrix_view(adj@)),
{
    let ghost m = matrix_view(adj@);
    let ghost lead = |l: int| is_leader(m, l);
    let sym = symmetric_of(adj);
    let n = adj.len();
    let mut groups: Vec<Vec<usize>> = Vec::new();
    let mut l: usize = 0;
    proof {
        lemma_linked_equiv(m);
    }
    while l < n
        invariant
            n == adj@.len(),
            m == matrix_view(adj@),
            is_square(m),
            matrix_view(sym@) == symmetric(m),
            is_square(matrix_view(sym@)),
            l <= n,
            lead == (|q: int| is_leader(m, q)),
            idx_groups(groups@) == index_filter(l as nat, lead).map_values(
                |q: int| index_filter(n as nat, |k: int| linked(m, q, k)),
            ),
            forall|i: int, j: int| #[trigger] linked(m, i, j) ==> linked(m, j, i),
        decreases n - l,
    {
        let row = reach_row(&sym, l);
        let mut leader = true;
        let mut j: usize = 0;
        while j < l
            invariant
                n == adj@.len(),
                m == matrix_view(adj@),
                matrix_view(sym@) == symmetric(m),
                row@.len() == n,
                forall|k: int| 0 <= k < n ==> row@[k] == reach(symmetric(m), l as int, k),
                forall|i: int, j: int| #[trigger] linked(m, i, j) ==> linked(m, j, i),
                j <= l,
                l < n,
                leader == forall|q: int| 0 <= q < j ==> !#[trigger] linked(m, q, l as int),
            decreases l - j,
        {
            if row[j] {
                assert(linked(m, l as int, j as int));
                leader = false;
            } else {
                assert(!linked(m, l as int, j as int));
            }
            j += 1;
        }
        let ghost prev = groups@;
        if leader {
            let mut members: Vec<usize> = Vec::new();
            let mut k: usize = 0;
            while k < n
                invariant
                    n == adj@.len(),
                    m == matrix_view(adj@),
                    row@.len() == n,
                    forall|q: int| 0 <= q < n ==> row@[q] == reach(symmetric(m), l as int, q),
                    k <= n,
                    l < n,
                    idx(members@) == index_filter(k as nat, |q: int| linked(m, l as int, q)),
                decreases n - k,
            {
                if k == l || row[k] {
                    members.push(k);
                }
                k += 1;
                assert(idx(members@) =~= index_filter(k as nat, |q: int| linked(m, l as int, q)));
            }
            groups.push(members);
            assert(idx_groups(groups@) =~= idx_groups(prev).push(idx(members@)));
        }
        l += 1;
        assert(idx_groups(groups@) =~= index_filter(l as nat, lead).map_values(
            |q: int| index_filter(n as nat, |k: int| linked(m, q, k)),
        ));
    }
    assert(idx_groups(groups@) == components(m));
    if groups.len() > 1 {
        Some(groups)
    } else {
        None
    }
}

/// The loop cut's redo activities: those that end a trace and have an
/// edge to an activity that starts one.
pub fn redo_flags(adj: &Vec<Vec<bool>>, starts: &Vec<bool>, ends: &Vec<bool>) -> (r: Vec<bool>)
    requires
        is_square(matrix_view(adj@)),
        starts@.len() == adj@.len(),
        ends@.len() == adj@.len(),
    ensures
        r@.len() == adj@.len(),
        forall|i: int| 0 <= i < adj@.len() ==> r@[i] == is_redo(matrix_view(adj@), starts@, ends@, i),
{
    let ghost m = matrix_view(adj@);
    let n = adj.len();
    let mut r: Vec<bool> = Vec::new();
    let mut i: usize = 0;
    while i < n
        invariant
            n == adj@.len(),
            m == matrix_view(adj@),
            is_square(m),
            starts@.len() == n,
            ends@.len() == n,
            i <= n,
            r@.len() == i,
            forall|k: int| 0 <= k < i ==> #[trigger] r@[k] == is_redo(m, starts@, ends@, k),
        decreases n - i,
    {
        let mut found = false;
        let mut j: usize = 0;
        assert(adj@[i as int]@ == m[i as int]);
        while j < n
            invariant
                n == adj@.len(),
                m == matrix_view(adj@),
                is_square(m),
                starts@.len() == n,
                i < n,
                j <= n,
                adj@[i as int]@ == m[i as int],
                found == exists|q: int| 0 <= q < j && #[trigger] m[i as int][q] && starts@[q],
            decreases n - j,
        {
            if adj[i][j] && starts[j] {
                found = true;
            }
            j += 1;
        }
        r.push(ends[i] && found);
        i += 1;
    }
    r
}

/// The indices whose flag is `want`, ascending.
pub fn indices_where(flags: &Vec<bool>, want: bool) -> (r: Vec<usize>)
    ensures
        idx(r@) == index_filter(flags@.len(), |i: int| flags@[i] == want),
{
    let ghost p = |i: int| flags@[i] == want;
    let mut r: Vec<usize> = Vec::new();
    let mut k: usize = 0;
    while k < flags.len()
        invariant
            k <= flags@.len(),
            p == (|i: int| flags@[i] == want),
            idx(r@) == index_filter(k as nat, p),
        decreases flags@.len() - k,
    {
        if flags[k] == want {
            r.push(k);
        }
        k += 1;
        assert(idx(r@) =~= index_filter(k as nat, p));
    }
    r
}

/// The activities at the indices `ix`.
pub fn pick_acts(acts: &Vec<String>, ix: &Vec<usize>) -> (r: Vec<String>)
    requires
        forall|k: int| 0 <= k < ix@.len() ==> #[trigger] ix@[k] < acts@.len(),
    ensures
        texts(r@) == pick(texts(acts@), idx(ix@)),
{
    let mut r: Vec<String> = Vec::new();
    let mut k: usize = 0;
    while k < ix.len()
        invariant
            k <= ix@.len(),
            forall|q: int| 0 <= q < ix@.len() ==> #[trigger] ix@[q] < acts@.len(),
            texts(r@) == pick(texts(acts@), idx(ix@)).subrange(0, k as int),
        decreases ix@.len() - k,
    {
        let a = acts[ix[k]].clone();
        let ghost prev = r@;
        r.push(a);
        proof {
            assert(pick(texts(acts@), idx(ix@))[k as int] == acts@[ix@[k as int] as int]@);
            assert(texts(r@) =~= texts(prev).push(a@));
        }
        k += 1;
        assert(texts(r@) =~= pick(texts(acts@), idx(ix@)).subrange(0, k as int));
    }
    assert(pick(texts(acts@), idx(ix@)).subrange(0, k as int) =~= pick(texts(acts@), idx(ix@)));
    r
}

/// The traces of `log` restricted to `g`, the empty ones left out.
pub fn filter_traces(log: &Vec<Vec<String>>, g: &Vec<String>) -> (r: Vec<Vec<String>>)
    ensures
        log_texts(r@) == sub_log(log_texts(log@), texts(g@)),
{
    let mut r: Vec<Vec<String>> = Vec::new();
    let mut i: usize = 0;
    while i < log.len()
        invariant
            i <= log@.len(),
            log_texts(r@) == sub_log(log_texts(log@).subrange(0, i as int), texts(g@)),
        decreases log@.len() - i,
    {
        let k = keep_trace(&log[i], g);
        let ghost lt = log_texts(log@);
        let ghost next = lt.subrange(0, i + 1);
        assert(next.drop_last() =~= lt.subrange(0, i as int));
        assert(next.last() == texts(log@[i as int]@));
        if k.len() > 0 {
            let ghost prev = r@;
            r.push(k);
            assert(log_texts(r@) =~= log_texts(prev).push(texts(k@)));
        }
        i += 1;
    }
    assert(log_texts(log@).subrange(0, log@.len() as int) =~= log_texts(log@));
    r
}

/// `o` lists every node once, each reaching all later ones and reached
/// by none of them: the nodes in the one order that the graph's
/// reachability puts them in, where there is one.
pub open spec fn is_chain(adj: Seq<Seq<bool>>, o: Seq<int>) -> bool {
    &&& o.len() == adj.len()
    &&& forall|k: int| 0 <= k < o.len() ==> 0 <= #[trigger] o[k] < adj.len()
    &&& forall|v: int| 0 <= v < adj.len() ==> #[trigger] o.contains(v)
    &&& forall|k: int, q: int|
        0 <= k < q < o.len() ==> reach(adj, #[trigger] o[k], #[trigger] o[q]) && !reach(adj, o[q], o[k])
}

/// The chain of the graph, if it has one.
pub open spec fn chain_of(adj: Seq<Seq<bool>>) -> Option<Seq<int>> {
    if exists|o: Seq<int>| is_chain(adj, o) {
        Some(choose|o: Seq<int>| is_chain(adj, o))
    } else {
        None
    }
}

proof fn lemma_chain_prefix(adj: Seq<Seq<bool>>, o: Seq<int>, o2: Seq<int>, k: int)
    requires
        is_chain(adj, o),
        is_chain(adj, o2),
        0 <= k <= o.len(),
    ensures
        forall|j: int| 0 <= j < k ==> o[j] == o2[j],
    decreases k,
{
    if k > 0 {
        lemma_chain_prefix(adj, o, o2, k - 1);
        let x = o[k - 1];
        let y = o2[k - 1];
        if x != y {
            assert(o2.contains(x));
            let p = choose|p: int| 0 <= p < o2.len() && o2[p] == x;
            assert(o.contains(y));
            let q = choose|q: int| 0 <= q < o.len() && o[q] == y;
            if p < k - 1 {
                assert(o2[p] == o[p]);
                assert(reach(adj, o[p], o[k - 1]) && !reach(adj, o[k - 1], o[p]));
            }
            if q < k - 1 {
                assert(o[q] == o2[q]);
                assert(reach(adj, o2[q], o2[k - 1]) && !reach(adj, o2[k - 1], o2[q]));
            }
            assert(p > k - 1 && q > k - 1);
            assert(reach(adj, o2[k - 1], o2[p]));
            assert(!reach(adj, o[q], o[k - 1]));
        }
    }
}

/// A graph has at most one chain.
pub proof fn lemma_chain_unique(adj: Seq<Seq<bool>>, o: Seq<int>, o2: Seq<int>)
    requires
        is_chain(adj, o),
        is_chain(adj, o2),
    ensures
        o == o2,
{
    lemma_chain_prefix(adj, o, o2, o.len() as int);
    assert(o =~= o2);
}

/// Among the nodes `rem`, none other reaches the one at `p`.
pub open spec fn is_minimal(adj: Seq<Seq<bool>>, rem: Seq<int>, p: int) -> bool {
    forall|q: int| 0 <= q < rem.len() && q != p ==> !reach(adj, #[trigger] rem[q], rem[p])
}

/// The reachability rows of every node.
fn reach_rows(adj: &Vec<Vec<bool>>) -> (r: Vec<Vec<bool>>)
    requires
        is_square(matrix_view(adj@)),
    ensures
        r@.len() == adj@.len(),
        forall|i: int| 0 <= i < adj@.len() ==> #[trigger] r@[i]@.len() == adj@.len(),
        forall|i: int, j: int|
            0 <= i < adj@.len() && 0 <= j < adj@.len() ==> #[trigger] r@[i]@[j] == reach(
                matrix_view(adj@),
                i,
                j,
            ),
{
    let n = adj.len();
    let mut r: Vec<Vec<bool>> = Vec::new();
    let mut i: usize = 0;
    while i < n
        invariant
            n == adj@.len(),
            is_square(matrix_view(adj@)),
            i <= n,
            r@.len() == i,
            forall|k: int| 0 <= k < i ==> #[trigger] r@[k]@.len() == n,
            forall|k: int, j: int|
                0 <= k < i && 0 <= j < n ==> #[trigger] r@[k]@[j] == reach(matrix_view(adj@), k, j),
        decreases n - i,
    {
        let row = reach_row(adj, i);
        r.push(row);
        i += 1;
    }
    r
}

/// The first of the nodes `rem` that no other of them reaches.
fn first_minimal(rows: &Vec<Vec<bool>>, rem: &Vec<usize>, Ghost(adj): Ghost<Seq<Seq<bool>>>) -> (r: Option<usize>)
    requires
        rows@.len() == adj.len(),
        forall|i: int| 0 <= i < adj.len() ==> #[trigger] rows@[i]@.len() == adj.len(),
        forall|i: int, j: int|
            0 <= i < adj.len() && 0 <= j < adj.len() ==> #[trigger] rows@[i]@[j] == reach(adj, i, j),
        forall|k: int| 0 <= k < rem@.len() ==> #[trigger] rem@[k] < adj.len(),
    ensures
        r matches Some(p) ==> p < rem@.len() && is_minimal(adj, idx(rem@), p as int),
        r matches Some(p) ==> forall|q: int| 0 <= q < p ==> !is_minimal(adj, idx(rem@), q),
        r is None ==> forall|q: int| 0 <= q < rem@.len() ==> !is_minimal(adj, idx(rem@), q),
{
    let ghost rm = idx(rem@);
    let mut p: usize = 0;
    while p < rem.len()
        invariant
            rm == idx(rem@),
            rows@.len() == adj.len(),
            forall|i: int| 0 <= i < adj.len() ==> #[trigger] rows@[i]@.len() == adj.len(),
            forall|i: int, j: int|
                0 <= i < adj.len() && 0 <= j < adj.len() ==> #[trigger] rows@[i]@[j] == reach(adj, i, j),
            forall|k: int| 0 <= k < rem@.len() ==> #[trigger] rem@[k] < adj.len(),
            p <= rem@.len(),
            forall|q: int| 0 <= q < p ==> !is_minimal(adj, rm, q),
        decreases rem@.len() - p,
    {
        let a = rem[p];
        let mut ok = true;
        let mut q: usize = 0;
        while q < rem.len()
            invariant
                rm == idx(rem@),
                rows@.len() == adj.len(),
                forall|i: int| 0 <= i < adj.len() ==> #[trigger] rows@[i]@.len() == adj.len(),
                forall|i: int, j: int|
                    0 <= i < adj.len() && 0 <= j < adj.len() ==> #[trigger] rows@[i]@[j] == reach(
                        adj,
                        i,
                        j,
                    ),
                forall|k: int| 0 <= k < rem@.len() ==> #[trigger] rem@[k] < adj.len(),
                p < rem@.len(),
                a == rem@[p as int],
                q <= rem@.len(),
                ok == forall|t: int| 0 <= t < q && t != p ==> !reach(adj, #[trigger] rm[t], rm[p as int]),
            decreases rem@.len() - q,
        {
            proof {
                assert(rm[q as int] == rem@[q as int] as int);
                assert(rm[p as int] == a as int);
            }
            if q != p && rows[rem[q]][a] {
                ok = false;
            }
            q += 1;
        }
        if ok {
            return Some(p);
        }
        p += 1;
    }
    None
}

/// The sequence cut: the chain of the graph, when the graph has at least
/// two nodes and a chain.
pub fn sequence_cut(adj: &Vec<Vec<bool>>) -> (r: Option<Vec<usize>>)
    requires
        is_square(matrix_view(adj@)),
    ensures
        r is Some <==> adj@.len() > 1 && chain_of(matrix_view(adj@)) is Some,
        r matches Some(o) ==> Some(idx(o@)) == chain_of(matrix_view(adj@)),
        r matches Some(o) ==> is_chain(matrix_view(adj@), idx(o@)),
{
    let ghost m = matrix_view(adj@);
    let n = adj.len();
    if n < 2 {
        return None;
    }
    let rows = reach_rows(adj);
    let mut remaining: Vec<usize> = Vec::new();
    let mut i: usize = 0;
    while i < n
        invariant
            i <= n,
            remaining@.len() == i,
            forall|k: int| 0 <= k < i ==> #[trigger] remaining@[k] == k,
        decreases n - i,
    {
        remaining.push(i);
        i += 1;
    }
    let mut ordered: Vec<usize> = Vec::new();
    proof {
        assert forall|v: int| 0 <= v < n implies #[trigger] idx(ordered@).contains(v) || idx(remaining@).contains(v) by {
            assert(idx(remaining@)[v] == v);
        }
    }
    while remaining.len() > 0
        invariant
            n == adj@.len(),
            m == matrix_view(adj@),
            is_square(m),
            rows@.len() == n,
            forall|i: int| 0 <= i < n ==> #[trigger] rows@[i]@.len() == n,
            forall|i: int, j: int| 0 <= i < n && 0 <= j < n ==> #[trigger] rows@[i]@[j] == reach(m, i, j),
            ordered@.len() + remaining@.len() == n,
            forall|k: int| 0 <= k < ordered@.len() ==> #[trigger] ordered@[k] < n,
            forall|k: int| 0 <= k < remaining@.len() ==> #[trigger] remaining@[k] < n,
            forall|k: int, q: int| 0 <= k < q < ordered@.len() ==> ordered@[k] != ordered@[q],
            forall|k: int, q: int| 0 <= k < q < remaining@.len() ==> remaining@[k] != remaining@[q],
            forall|k: int, q: int|
                0 <= k < ordered@.len() && 0 <= q < remaining@.len() ==> ordered@[k] != remaining@[q],
            forall|v: int| 0 <= v < n ==> #[trigger] idx(ordered@).contains(v) || idx(remaining@).contains(v),
            forall|k: int, q: int|
                0 <= k < q < ordered@.len() ==> !reach(m, #[trigger] idx(ordered@)[q], #[trigger] idx(ordered@)[k]),
            forall|k: int, q: int|
                0 <= k < ordered@.len() && 0 <= q < remaining@.len() ==> !reach(
                    m,
                    #[trigger] idx(remaining@)[q],
                    #[trigger] idx(ordered@)[k],
                ),
            forall|c: Seq<int>| #[trigger] is_chain(m, c) ==> idx(ordered@) == c.subrange(0, ordered@.len() as int),
        decreases remaining@.len(),
    {
        let ghost o = idx(ordered@);
        let ghost rm = idx(remaining@);
        let found = first_minimal(&rows, &remaining, Ghost(m));
        proof {
            // With a chain, its next node is minimal among the remaining ones,
            // and it is the only minimal one.
            assert forall|c: Seq<int>| #[trigger] is_chain(m, c) implies {
                let x = c[o.len() as int];
                exists|px: int| 0 <= px < rm.len() && rm[px] == x && is_minimal(m, rm, px)
                    && forall|p2: int| 0 <= p2 < rm.len() && p2 != px ==> !is_minimal(m, rm, p2)
            } by {
                let k = o.len() as int;
                let x = c[k];
                assert(o == c.subrange(0, k));
                assert forall|y: int| 0 <= y < n && !o.contains(y) implies exists|t: int|
                    k <= t < n && #[trigger] c[t] == y by {
                    assert(c.contains(y));
                    let t = choose|t: int| 0 <= t < c.len() && c[t] == y;
                    if t < k {
                        assert(o[t] == y);
                    }
                }
                assert(!o.contains(x)) by {
                    if o.contains(x) {
                        let j = choose|j: int| 0 <= j < o.len() && o[j] == x;
                        assert(c[j] == x);
                        assert(reach(m, c[j], c[k]) && !reach(m, c[k], c[j]));
                    }
                }
                assert(rm.contains(x));
                let px = choose|px: int| 0 <= px < rm.len() && rm[px] == x;
                assert forall|q: int| 0 <= q < rm.len() && q != px implies !reach(m, #[trigger] rm[q], rm[px]) by {
                    let y = rm[q];
                    assert(remaining@[q] != remaining@[px]);
                    assert(!o.contains(y)) by {
                        if o.contains(y) {
                            let j = choose|j: int| 0 <= j < o.len() && o[j] == y;
                            assert(ordered@[j] != remaining@[q]);
                        }
                    }
                    let t = choose|t: int| k <= t < n && #[trigger] c[t] == y;
                    assert(t != k);
                    assert(reach(m, c[k], c[t]) && !reach(m, c[t], c[k]));
                }
                assert(is_minimal(m, rm, px));
                assert forall|p2: int| 0 <= p2 < rm.len() && p2 != px implies !is_minimal(m, rm, p2) by {
                    let y = rm[p2];
                    assert(remaining@[p2] != remaining@[px]);
                    assert(!o.contains(y)) by {
                        if o.contains(y) {
                            let j = choose|j: int| 0 <= j < o.len() && o[j] == y;
                            assert(ordered@[j] != remaining@[p2]);
                        }
                    }
                    let t = choose|t: int| k <= t < n && #[trigger] c[t] == y;
                    assert(t != k);
                    assert(reach(m, c[k], c[t]));
                    assert(reach(m, rm[px], rm[p2]));
                }
            }
        }
        match found {
            None => {
                proof {
                    assert forall|c: Seq<int>| !is_chain(m, c) by {
                        if is_chain(m, c) {
                            let x = c[o.len() as int];
                            let px = choose|px: int|
                                0 <= px < rm.len() && rm[px] == x && is_minimal(m, rm, px) && forall|p2: int|
                                    0 <= p2 < rm.len() && p2 != px ==> !is_minimal(m, rm, p2);
                        }
                    }
                }
                return None;
            },
            Some(p) => {
                let a = remaining.remove(p);
                ordered.push(a);
                proof {
                    let o2 = idx(ordered@);
                    let rm2 = idx(remaining@);
                    assert(o2 == o.push(a as int));
                    assert(rm2 == rm.remove(p as int));
                    assert forall|q: int| 0 <= q < rm2.len() implies #[trigger] rm2[q] == if q < p {
                        rm[q]
                    } else {
                        rm[q + 1]
                    } by {}
                    assert forall|v: int| 0 <= v < n implies #[trigger] o2.contains(v) || rm2.contains(v) by {
                        if o.contains(v) {
                            let j = choose|j: int| 0 <= j < o.len() && o[j] == v;
                            assert(o2[j] == v);
                        } else {
                            assert(rm.contains(v));
                            let j = choose|j: int| 0 <= j < rm.len() && rm[j] == v;
                            if j == p {
                                assert(o2[o.len() as int] == v);
                            } else if j < p {
                                assert(rm2[j] == v);
                            } else {
                                assert(rm2[j - 1] == v);
                            }
                        }
                    }
                    assert forall|k: int, q: int| 0 <= k < q < o2.len() implies !reach(
                        m,
                        #[trigger] o2[q],
                        #[trigger] o2[k],
                    ) by {
                        if q < o.len() {
                            assert(o2[q] == o[q] && o2[k] == o[k]);
                        } else {
                            assert(o2[q] == rm[p as int]);
                            assert(o2[k] == o[k]);
                        }
                    }
                    assert forall|k: int, q: int| 0 <= k < o2.len() && 0 <= q < rm2.len() implies !reach(
                        m,
                        #[trigger] rm2[q],
                        #[trigger] o2[k],
                    ) by {
                        let q2 = if q < p {
                            q
                        } else {
                            q + 1
                        };
                        assert(rm2[q] == rm[q2]);
                        if k < o.len() {
                            assert(o2[k] == o[k]);
                        } else {
                            assert(o2[k] == rm[p as int]);
                            assert(q2 != p);
                        }
                    }
                    assert forall|c: Seq<int>| #[trigger] is_chain(m, c) implies o2 == c.subrange(
                        0,
                        o2.len() as int,
                    ) by {
                        let x = c[o.len() as int];
                        let px = choose|px: int|
                            0 <= px < rm.len() && rm[px] == x && is_minimal(m, rm, px) && forall|p2: int|
                                0 <= p2 < rm.len() && p2 != px ==> !is_minimal(m, rm, p2);
                        assert(px == p);
                        assert(o2 =~= c.subrange(0, o2.len() as int));
                    }
                }
            },
        }
    }
    let ghost o = idx(ordered@);
    assert(o.len() == n);
    let mut i: usize = 0;
    while i < n
        invariant
            n == adj@.len(),
            m == matrix_view(adj@),
            o == idx(ordered@),
            ordered@.len() == n,
            rows@.len() == n,
            forall|i: int| 0 <= i < n ==> #[trigger] rows@[i]@.len() == n,
            forall|i: int, j: int| 0 <= i < n && 0 <= j < n ==> #[trigger] rows@[i]@[j] == reach(m, i, j),
            forall|k: int| 0 <= k < ordered@.len() ==> #[trigger] ordered@[k] < n,
            forall|c: Seq<int>| #[trigger] is_chain(m, c) ==> o == c.subrange(0, n as int),
            i <= n,
            forall|k: int, q: int| 0 <= k < i && k < q < n ==> reach(m, #[trigger] o[k], #[trigger] o[q]),
        decreases n - i,
    {
        let mut j: usize = i + 1;
        while j < n
            invariant
                n == adj@.len(),
                m == matrix_view(adj@),
                o == idx(ordered@),
                ordered@.len() == n,
                rows@.len() == n,
                forall|i: int| 0 <= i < n ==> #[trigger] rows@[i]@.len() == n,
                forall|i: int, j: int|
                    0 <= i < n && 0 <= j < n ==> #[trigger] rows@[i]@[j] == reach(m, i, j),
                forall|k: int| 0 <= k < ordered@.len() ==> #[trigger] ordered@[k] < n,
                forall|c: Seq<int>| #[trigger] is_chain(m, c) ==> o == c.subrange(0, n as int),
                i < n,
                i + 1 <= j <= n,
                forall|k: int, q: int| 0 <= k < i && k < q < n ==> reach(m, #[trigger] o[k], #[trigger] o[q]),
                forall|q: int| i < q < j ==> reach(m, o[i as int], #[trigger] o[q]),
            decreases n - j,
        {
            if !rows[ordered[i]][ordered[j]] {
                proof {
                    assert forall|c: Seq<int>| !is_chain(m, c) by {
                        if is_chain(m, c) {
                            assert(o == c.subrange(0, n as int));
                            assert(o[i as int] == ordered@[i as int] as int);
                            assert(o[j as int] == ordered@[j as int] as int);
                            assert(c[i as int] == o[i as int]);
                            assert(c[j as int] == o[j as int]);
                            assert(reach(m, c[i as int], c[j as int]));
                        }
                    }
                }
                return None;
            }
            j += 1;
        }
        i += 1;
    }
    proof {
        assert forall|v: int| 0 <= v < n implies #[trigger] o.contains(v) by {
            assert(!idx(remaining@).contains(v));
        }
        assert(is_chain(m, o));
        lemma_chain_unique(m, o, choose|c: Seq<int>| is_chain(m, c));
    }
    Some(ordered)
}

/// Filtering by predicates that agree below `n` gives the same indices.
pub proof fn lemma_index_filter_ext(n: nat, p: spec_fn(int) -> bool, q: spec_fn(int) -> bool)
    requires
        forall|i: int| 0 <= i < n ==> #[trigger] p(i) == q(i),
    ensures
        index_filter(n, p) == index_filter(n, q),
    decreases n,
{
    if n > 0 {
        lemma_index_filter_ext((n - 1) as nat, p, q);
    }
}

/// The indices that satisfy `p` and those that do not make up all of them.
pub proof fn lemma_index_filter_split(n: nat, p: spec_fn(int) -> bool)
    ensures
        index_filter(n, p).len() + index_filter(n, |i: int| !p(i)).len() == n,
    decreases n,
{
    if n > 0 {
        lemma_index_filter_split((n - 1) as nat, p);
    }
}

/// An index that fails `p` keeps the filter short of all indices.
pub proof fn lemma_index_filter_short(n: nat, p: spec_fn(int) -> bool, x: int)
    requires
        0 <= x < n,
        !p(x),
    ensures
        index_filter(n, p).len() < n,
{
    lemma_index_filter_split(n, p);
    lemma_index_filter(n, |i: int| !p(i));
    assert(index_filter(n, |i: int| !p(i)).contains(x));
}

/// With two components or more, each misses some node.
pub proof fn lemma_components_proper(adj: Seq<Seq<bool>>)
    requires
        components(adj).len() > 1,
    ensures
        forall|k: int| 0 <= k < components(adj).len() ==> #[trigger] components(adj)[k].len() < adj.len(),
        forall|k: int, q: int|
            0 <= k < components(adj).len() && 0 <= q < components(adj)[k].len() ==> 0 <= #[trigger] components(
                adj,
            )[k][q] < adj.len(),
{
    let n = adj.len();
    let lead = |l: int| is_leader(adj, l);
    let ls = index_filter(n, lead);
    lemma_index_filter(n, lead);
    lemma_linked_equiv(adj);
    assert forall|k: int| 0 <= k < components(adj).len() implies #[trigger] components(adj)[k].len() < adj.len() by {
        let other = if k == 0 {
            1int
        } else {
            0int
        };
        let a = ls[k];
        let b = ls[other];
        assert(a != b);
        if a < b {
            assert(is_leader(adj, b));
            assert(!linked(adj, a, b));
        } else {
            assert(is_leader(adj, a));
            assert(!linked(adj, b, a));
        }
        lemma_index_filter_short(n, |j: int| linked(adj, a, j), b);
    }
    assert forall|k: int, q: int|
        0 <= k < components(adj).len() && 0 <= q < components(adj)[k].len() implies 0 <= #[trigger] components(
            adj,
        )[k][q] < adj.len() by {
        lemma_index_filter(n, |j: int| linked(adj, ls[k], j));
    }
}

/// Below a node linked to `v` there is a leader linked to `v`.
proof fn lemma_leader_below(adj: Seq<Seq<bool>>, v: int, u: int)
    requires
        0 <= u < adj.len(),
        linked(adj, u, v),
    ensures
        exists|l: int| 0 <= l <= u && #[trigger] is_leader(adj, l) && linked(adj, l, v),
    decreases u,
{
    lemma_linked_equiv(adj);
    if !is_leader(adj, u) {
        let j = choose|j: int| 0 <= j < u && #[trigger] linked(adj, j, u);
        lemma_leader_below(adj, v, j);
        let l = choose|l: int| 0 <= l <= j && #[trigger] is_leader(adj, l) && linked(adj, l, v);
        assert(0 <= l <= u && is_leader(adj, l) && linked(adj, l, v));
    } else {
        assert(0 <= u <= u && is_leader(adj, u) && linked(adj, u, v));
    }
}

/// The component of a node: its place among the components, if it has one.
proof fn lemma_in_component(adj: Seq<Seq<bool>>, k: int, v: int)
    requires
        0 <= k < components(adj).len(),
    ensures
        components(adj)[k].contains(v) <==> (0 <= v < adj.len() && linked(
            adj,
            index_filter(adj.len(), |l: int| is_leader(adj, l))[k],
            v,
        )),
{
    let ls = index_filter(adj.len(), |l: int| is_leader(adj, l));
    let p = |x: int| linked(adj, ls[k], x);
    lemma_index_filter(adj.len(), p);
    if components(adj)[k].contains(v) {
        let q = choose|q: int| 0 <= q < components(adj)[k].len() && components(adj)[k][q] == v;
        assert(index_filter(adj.len(), p)[q] == v);
    }
}

/// Two different leaders are not linked.
proof fn lemma_leaders_apart(adj: Seq<Seq<bool>>, a: int, b: int)
    requires
        is_leader(adj, a),
        is_leader(adj, b),
        0 <= a,
        0 <= b,
        a != b,
    ensures
        !linked(adj, a, b),
{
    lemma_linked_equiv(adj);
    if a < b {
        assert(!linked(adj, a, b));
    } else {
        assert(!linked(adj, b, a));
    }
}

/// The components partition the nodes: every node lies in exactly one.
pub proof fn components_partition(adj: Seq<Seq<bool>>, v: int)
    requires
        0 <= v < adj.len(),
    ensures
        exists|k: int| 0 <= k < components(adj).len() && #[trigger] components(adj)[k].contains(v),
        forall|k1: int, k2: int|
            0 <= k1 < components(adj).len() && 0 <= k2 < components(adj).len()
                && #[trigger] components(adj)[k1].contains(v) && #[trigger] components(adj)[k2].contains(v)
                ==> k1 == k2,
{
    let n = adj.len();
    let lead = |l: int| is_leader(adj, l);
    let ls = index_filter(n, lead);
    lemma_index_filter(n, lead);
    lemma_linked_equiv(adj);
    assert(linked(adj, v, v));
    lemma_leader_below(adj, v, v);
    let l = choose|l: int| 0 <= l <= v && #[trigger] is_leader(adj, l) && linked(adj, l, v);
    assert(ls.contains(l));
    let k = choose|k: int| 0 <= k < ls.len() && ls[k] == l;
    lemma_in_component(adj, k, v);
    assert forall|k1: int, k2: int|
        0 <= k1 < components(adj).len() && 0 <= k2 < components(adj).len()
            && #[trigger] components(adj)[k1].contains(v) && #[trigger] components(adj)[k2].contains(v)
            implies k1 == k2 by {
        lemma_in_component(adj, k1, v);
        lemma_in_component(adj, k2, v);
        if k1 != k2 {
            if k1 < k2 {
                assert(ls[k1] < ls[k2]);
            } else {
                assert(ls[k2] < ls[k1]);
            }
            assert(linked(adj, ls[k1], v) && linked(adj, v, ls[k2]));
            lemma_leaders_apart(adj, ls[k1], ls[k2]);
        }
    }
}

/// No edge of the graph joins two different components: the branches of
/// an exclusive choice never follow one another.
pub proof fn components_are_separated(adj: Seq<Seq<bool>>, k1: int, k2: int, i: int, j: int)
    requires
        is_square(adj),
        0 <= k1 < components(adj).len(),
        0 <= k2 < components(adj).len(),
        k1 != k2,
        components(adj)[k1].contains(i),
        components(adj)[k2].contains(j),
    ensures
        !adj[i][j],
{
    let n = adj.len();
    let ls = index_filter(n, |l: int| is_leader(adj, l));
    lemma_index_filter(n, |l: int| is_leader(adj, l));
    lemma_in_component(adj, k1, i);
    lemma_in_component(adj, k2, j);
    lemma_linked_equiv(adj);
    if adj[i][j] {
        let s = symmetric(adj);
        assert(s[i][j]);
        lemma_edge_reach(s, i, j);
        assert(linked(adj, i, j));
        assert(linked(adj, ls[k1], j));
        assert(linked(adj, ls[k1], ls[k2]));
        if k1 < k2 {
            assert(ls[k1] < ls[k2]);
        } else {
            assert(ls[k2] < ls[k1]);
        }
        lemma_leaders_apart(adj, ls[k1], ls[k2]);
    }
}

/// Along the chain of a sequence cut every edge of the graph leads forward
/// (or back to its own node): no later activity is ever followed by an
/// earlier one.
pub proof fn chain_edges_go_forward(adj: Seq<Seq<bool>>, o: Seq<int>, k: int, q: int)
    requires
        is_square(adj),
        is_chain(adj, o),
        0 <= k < o.len(),
        0 <= q < o.len(),
        adj[o[k]][o[q]],
    ensures
        k <= q,
{
    if q < k {
        lemma_edge_reach(adj, o[k], o[q]);
        assert(reach(adj, o[q], o[k]) && !reach(adj, o[k], o[q]));
    }
}

} // verus!
