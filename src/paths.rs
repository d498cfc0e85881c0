//! Breadth-first search over the adjacency list: hop distances from one
//! node to all others, and a shortest path between two nodes.
use vstd::prelude::*;
use crate::graph::adj_wf;

verus! {

/// The nodes of `s` together with their successors along one edge.
pub open spec fn step(adj: Seq<Vec<usize>>, s: Set<int>) -> Set<int> {
    s.union(
        Set::new(
            |v: int|
                exists|u: int, j: int|
                    s.contains(u) && 0 <= u < adj.len() && 0 <= j < adj[u]@.len() && adj[u]@[j] == v,
        ),
    )
}

/// The nodes reachable from `src` along at most `k` edges.
pub open spec fn reach(adj: Seq<Vec<usize>>, src: int, k: nat) -> Set<int>
    decreases k,
{
    if k == 0 {
        set![src]
    } else {
        step(adj, reach(adj, src, (k - 1) as nat))
    }
}

/// The fewest edges on a path from `src` to `v` is `d`.
pub open spec fn at_distance(adj: Seq<Vec<usize>>, src: int, v: int, d: nat) -> bool {
    &&& reach(adj, src, d).contains(v)
    &&& (d == 0 || !reach(adj, src, (d - 1) as nat).contains(v))
}

/// Some path leads from `src` to `v`.
pub open spec fn reachable(adj: Seq<Vec<usize>>, src: int, v: int) -> bool {
    exists|k: nat| #[trigger] reach(adj, src, k).contains(v)
}

/// `t` holds, for each node, its hop distance from `src`, or `None` where
/// no path leads there.
pub open spec fn is_distance_table(adj: Seq<Vec<usize>>, src: int, t: Seq<Option<usize>>) -> bool {
    &&& t.len() == adj.len()
    &&& forall|v: int| 0 <= v < t.len() ==> match #[trigger] t[v] {
        Some(d) => at_distance(adj, src, v, d as nat),
        None => !reachable(adj, src, v),
    }
}

/// Each node of `p` but the last has an edge to the next one.
pub open spec fn is_walk(adj: Seq<Vec<usize>>, p: Seq<usize>) -> bool {
    forall|i: int| 0 <= i < p.len() - 1 ==> adj[p[i] as int]@.contains(#[trigger] p[i + 1])
}

/// `p` is a path of fewest edges from `src` to `dst`.
pub open spec fn is_shortest_path(adj: Seq<Vec<usize>>, src: int, dst: int, p: Seq<usize>) -> bool {
    &&& p.len() >= 1
    &&& p[0] == src
    &&& p.last() == dst
    &&& is_walk(adj, p)
    &&& at_distance(adj, src, dst, (p.len() - 1) as nat)
}

pub proof fn lemma_reach_mono(adj: Seq<Vec<usize>>, src: int, a: nat, b: nat)
    requires
        a <= b,
    ensures
        reach(adj, src, a).subset_of(reach(adj, src, b)),
    decreases b,
{
    if a < b {
        lemma_reach_mono(adj, src, a, (b - 1) as nat);
    }
}

pub proof fn lemma_reach_stable(adj: Seq<Vec<usize>>, src: int, k: nat, m: nat)
    requires
        reach(adj, src, k + 1) == reach(adj, src, k),
        k <= m,
    ensures
        reach(adj, src, m) == reach(adj, src, k),
    decreases m,
{
    if m > k {
        lemma_reach_stable(adj, src, k, (m - 1) as nat);
    }
}

/// Only `src` itself is at distance zero.
pub proof fn lemma_distance_zero(adj: Seq<Vec<usize>>, src: int, v: int)
    requires
        at_distance(adj, src, v, 0),
    ensures
        v == src,
{
}

/// A node has at most one distance.
pub proof fn lemma_distance_unique(adj: Seq<Vec<usize>>, src: int, v: int, d1: nat, d2: nat)
    requires
        at_distance(adj, src, v, d1),
        at_distance(adj, src, v, d2),
    ensures
        d1 == d2,
{
    if d1 < d2 {
        lemma_reach_mono(adj, src, d1, (d2 - 1) as nat);
    } else if d2 < d1 {
        lemma_reach_mono(adj, src, d2, (d1 - 1) as nat);
    }
}

/// The number of entries that hold a value.
pub open spec fn num_some(t: Seq<Option<usize>>) -> nat
    decreases t.len(),
{
    if t.len() == 0 {
        0
    } else {
        num_some(t.drop_last()) + if t.last() is Some { 1nat } else { 0nat }
    }
}

proof fn lemma_num_some_bound(t: Seq<Option<usize>>)
    ensures
        num_some(t) <= t.len(),
    decreases t.len(),
{
    if t.len() > 0 {
        lemma_num_some_bound(t.drop_last());
    }
}

proof fn lemma_num_some_none(t: Seq<Option<usize>>)
    requires
        forall|v: int| 0 <= v < t.len() ==> #[trigger] t[v] is None,
    ensures
        num_some(t) == 0,
    decreases t.len(),
{
    if t.len() > 0 {
        lemma_num_some_none(t.drop_last());
    }
}

/// Along well-formed edges from a node of the graph, only nodes of the
/// graph are reached.
pub proof fn lemma_reach_bounded(adj: Seq<Vec<usize>>, src: int, k: nat, v: int)
    requires
        adj_wf(adj),
        0 <= src < adj.len(),
        reach(adj, src, k).contains(v),
    ensures
        0 <= v < adj.len(),
    decreases k,
{
    if k > 0 {
        let prior = reach(adj, src, (k - 1) as nat);
        if !prior.contains(v) {
            let (u, j) = choose|u: int, j: int|
                prior.contains(u) && 0 <= u < adj.len() && 0 <= j < adj[u]@.len() && adj[u]@[j] == v;
        } else {
            lemma_reach_bounded(adj, src, (k - 1) as nat, v);
        }
    }
}

proof fn lemma_num_some_fill(t: Seq<Option<usize>>, i: int, x: usize)
    requires
        0 <= i < t.len(),
        t[i] is None,
    ensures
        num_some(t.update(i, Some(x))) == num_some(t) + 1,
    decreases t.len(),
{
    let u = t.update(i, Some(x));
    if i < t.len() - 1 {
        assert(u.drop_last() =~= t.drop_last().update(i, Some(x)));
        lemma_num_some_fill(t.drop_last(), i, x);
    } else {
        assert(u.drop_last() =~= t.drop_last());
    }
}

/// What the search knows once every node within `k` edges has its
/// distance: `dist` is exact up to `k`, `prev` names the node on the level
/// before that discovered each one.
pub open spec fn levels_done(
    adj: Seq<Vec<usize>>,
    src: int,
    dist: Seq<Option<usize>>,
    prev: Seq<Option<usize>>,
    k: nat,
    top: nat,
) -> bool {
    &&& dist.len() == adj.len()
    &&& prev.len() == adj.len()
    &&& dist[src] == Some(0usize)
    &&& forall|v: int| 0 <= v < dist.len() ==> (#[trigger] dist[v] is Some && dist[v]->0 <= k) == reach(adj, src, k).contains(v)
    &&& forall|v: int| 0 <= v < dist.len() && #[trigger] dist[v] is Some ==>
        dist[v]->0 <= top && at_distance(adj, src, v, dist[v]->0 as nat)
    &&& forall|v: int| 0 <= v < dist.len() && #[trigger] dist[v] is Some && dist[v]->0 > 0 ==> {
        &&& prev[v] is Some
        &&& prev[v]->0 < adj.len()
        &&& dist[prev[v]->0 as int] == Some((dist[v]->0 - 1) as usize)
        &&& adj[prev[v]->0 as int]@.contains(v as usize)
    }
}

/// Level-by-level breadth-first search from `src`: the distance of each
/// node, and for each node but `src` that is reached, its predecessor on a
/// shortest path.
#[verifier::rlimit(60)]
fn bfs_tree(adj: &Vec<Vec<usize>>, src: usize) -> (r: (Vec<Option<usize>>, Vec<Option<usize>>))
    requires
        adj_wf(adj@),
        src < adj@.len(),
    ensures
        is_distance_table(adj@, src as int, r.0@),
        r.1@.len() == adj@.len(),
        forall|v: int| 0 <= v < r.0@.len() && #[trigger] r.0@[v] is Some && r.0@[v]->0 > 0 ==> {
            &&& r.1@[v] is Some
            &&& r.1@[v]->0 < adj@.len()
            &&& r.0@[r.1@[v]->0 as int] == Some((r.0@[v]->0 - 1) as usize)
            &&& adj@[r.1@[v]->0 as int]@.contains(v as usize)
        },
{
    let n = adj.len();
    let mut dist: Vec<Option<usize>> = Vec::new();
    let mut prev: Vec<Option<usize>> = Vec::new();
    while dist.len() < n
        invariant
            dist@.len() <= n,
            prev@.len() == dist@.len(),
            forall|v: int| 0 <= v < dist@.len() ==> #[trigger] dist@[v] is None,
        decreases n - dist@.len(),
    {
        dist.push(None);
        prev.push(None);
    }
    proof {
        lemma_num_some_none(dist@);
        lemma_num_some_fill(dist@, src as int, 0);
    }
    dist.set(src, Some(0));
    let mut discovered: usize = 1;
    let mut frontier: Vec<usize> = vec![src];
    let mut k: usize = 0;
    assert(reach(adj@, src as int, 0) =~= set![src as int]);
    while frontier.len() > 0
        invariant
            n == adj@.len(),
            adj_wf(adj@),
            src < n,
            levels_done(adj@, src as int, dist@, prev@, k as nat, k as nat),
            forall|i: int| 0 <= i < frontier@.len() ==> #[trigger] frontier@[i] < n && dist@[frontier@[i] as int] == Some(k),
            forall|v: int| 0 <= v < n && #[trigger] dist@[v] == Some(k) ==> frontier@.contains(v as usize),
            discovered == num_some(dist@),
            frontier@.len() > 0 ==> k < discovered,
            k > 0 || frontier@.len() > 0,
        decreases n - discovered + frontier@.len(),
    {
        proof {
            lemma_num_some_bound(dist@);
        }
        let level = k + 1;
        let mut next: Vec<usize> = Vec::new();
        let ghost d0 = discovered;
        let mut i: usize = 0;
        assert(reach(adj@, src as int, level as nat) == step(adj@, reach(adj@, src as int, k as nat)));
        while i < frontier.len()
            invariant
                n == adj@.len(),
                adj_wf(adj@),
                src < n,
                level == k + 1,
                i <= frontier@.len(),
                levels_done(adj@, src as int, dist@, prev@, k as nat, level as nat),
                reach(adj@, src as int, level as nat) == step(adj@, reach(adj@, src as int, k as nat)),
                forall|i: int| 0 <= i < frontier@.len() ==> #[trigger] frontier@[i] < n && dist@[frontier@[i] as int] == Some(k),
                forall|v: int| 0 <= v < n && #[trigger] dist@[v] == Some(k) ==> frontier@.contains(v as usize),
                forall|a: int, j: int| 0 <= a < i && 0 <= j < adj@[frontier@[a] as int]@.len() ==>
                    #[trigger] dist@[adj@[frontier@[a] as int]@[j] as int] is Some,
                forall|e: int| 0 <= e < next@.len() ==> #[trigger] next@[e] < n && dist@[next@[e] as int] == Some(level),
                forall|v: int| 0 <= v < n && #[trigger] dist@[v] == Some(level) ==> next@.contains(v as usize),
                discovered == num_some(dist@) ,
                discovered <= n,
                k < discovered,
                discovered >= k + 1 + next@.len(),
                discovered == d0 + next@.len(),
            decreases frontier@.len() - i,
        {
            let u = frontier[i];
            let row = &adj[u];
            let mut j: usize = 0;
            while j < row.len()
                invariant
                    n == adj@.len(),
                    adj_wf(adj@),
                    src < n,
                    level == k + 1,
                    i < frontier@.len(),
                    u == frontier@[i as int],
                    row == adj@[u as int],
                    j <= row@.len(),
                    levels_done(adj@, src as int, dist@, prev@, k as nat, level as nat),
                    reach(adj@, src as int, level as nat) == step(adj@, reach(adj@, src as int, k as nat)),
                    forall|i: int| 0 <= i < frontier@.len() ==> #[trigger] frontier@[i] < n && dist@[frontier@[i] as int] == Some(k),
                    forall|v: int| 0 <= v < n && #[trigger] dist@[v] == Some(k) ==> frontier@.contains(v as usize),
                    forall|a: int, j: int| 0 <= a < i && 0 <= j < adj@[frontier@[a] as int]@.len() ==>
                        #[trigger] dist@[adj@[frontier@[a] as int]@[j] as int] is Some,
                    forall|b: int| 0 <= b < j ==> #[trigger] dist@[row@[b] as int] is Some,
                    forall|e: int| 0 <= e < next@.len() ==> #[trigger] next@[e] < n && dist@[next@[e] as int] == Some(level),
                    forall|v: int| 0 <= v < n && #[trigger] dist@[v] == Some(level) ==> next@.contains(v as usize),
                    discovered == num_some(dist@),
                    discovered <= n,
                    k < discovered,
                    discovered >= k + 1 + next@.len(),
                    discovered == d0 + next@.len(),
                discovered == d0 + next@.len(),
                decreases row@.len() - j,
            {
                let v = row[j];
                if dist[v].is_none() {
                    proof {
                        lemma_num_some_fill(dist@, v as int, level);
                        lemma_num_some_bound(dist@.update(v as int, Some(level)));
                        assert(reach(adj@, src as int, k as nat).contains(u as int));
                        assert(step(adj@, reach(adj@, src as int, k as nat)).contains(v as int));
                        assert(!reach(adj@, src as int, k as nat).contains(v as int));
                    }
                    let ghost old_dist = dist@;
                    let ghost old_next = next@;
                    dist.set(v, Some(level));
                    prev.set(v, Some(u));
                    next.push(v);
                    discovered = discovered + 1;
                    proof {
                        assert(adj@[u as int]@[j as int] == v);
                        assert(adj@[u as int]@.contains(v));
                        assert forall|w: int| 0 <= w < n && #[trigger] dist@[w] == Some(level) implies next@.contains(w as usize) by {
                            if w != v {
                                assert(old_dist[w] == Some(level));
                                let e = choose|e: int| 0 <= e < old_next.len() && old_next[e] == w as usize;
                                assert(next@[e] == w as usize);
                            } else {
                                assert(next@[next@.len() - 1] == v);
                            }
                        }
                        assert forall|w: int| 0 <= w < n && #[trigger] dist@[w] == Some(k) implies frontier@.contains(w as usize) by {
                            assert(old_dist[w] == Some(k));
                        }
                    }
                }
                j = j + 1;
            }
            i = i + 1;
        }
        proof {
            let ghost rk = reach(adj@, src as int, k as nat);
            assert forall|v: int| 0 <= v < n implies (#[trigger] dist@[v] is Some && dist@[v]->0 <= level) == reach(adj@, src as int, level as nat).contains(v) by {
                if dist@[v] is Some {
                    lemma_reach_mono(adj@, src as int, dist@[v]->0 as nat, level as nat);
                }
                if reach(adj@, src as int, level as nat).contains(v) && !rk.contains(v) {
                    let (u, j) = choose|u: int, j: int|
                        rk.contains(u) && 0 <= u < adj@.len() && 0 <= j < adj@[u]@.len() && adj@[u]@[j] == v;
                    let du = dist@[u]->0;
                    if du < k {
                        assert(reach(adj@, src as int, (du + 1) as nat) == step(adj@, reach(adj@, src as int, du as nat)));
                        lemma_reach_mono(adj@, src as int, (du + 1) as nat, k as nat);
                    } else {
                        assert(dist@[u] == Some(k));
                        let a = choose|a: int| 0 <= a < frontier@.len() && frontier@[a] == u as usize;
                        assert(dist@[adj@[frontier@[a] as int]@[j] as int] is Some);
                    }
                }
            }
            assert(levels_done(adj@, src as int, dist@, prev@, level as nat, level as nat));
        }
        assert(d0 + frontier@.len() > d0);
        frontier = next;
        k = level;
    }
    proof {
        let km1 = (k - 1) as nat;
        assert forall|v: int| reach(adj@, src as int, k as nat).contains(v) implies reach(adj@, src as int, km1).contains(v) by {
            lemma_reach_mono(adj@, src as int, 0, k as nat);
            if 0 <= v < n {
                let d = dist@[v]->0;
                if d == k {
                    assert(dist@[v] == Some(k));
                }
                lemma_reach_mono(adj@, src as int, d as nat, km1);
            } else {
                lemma_reach_bounded(adj@, src as int, k as nat, v);
            }
        }
        lemma_reach_mono(adj@, src as int, km1, k as nat);
        assert(reach(adj@, src as int, k as nat) =~= reach(adj@, src as int, km1));
        assert forall|v: int| 0 <= v < n implies match #[trigger] dist@[v] {
            Some(d) => at_distance(adj@, src as int, v, d as nat),
            None => !reachable(adj@, src as int, v),
        } by {
            if dist@[v] is None {
                assert forall|m: nat| !#[trigger] reach(adj@, src as int, m).contains(v) by {
                    if m <= k {
                        lemma_reach_mono(adj@, src as int, m, k as nat);
                    } else {
                        lemma_reach_stable(adj@, src as int, km1, m);
                    }
                }
            }
        }
    }
    (dist, prev)
}

/// The hop distance from `src` to every node, `None` where no path leads.
pub fn bfs(adj: &Vec<Vec<usize>>, src: usize) -> (r: Vec<Option<usize>>)
    requires
        adj_wf(adj@),
        src < adj@.len(),
    ensures
        is_distance_table(adj@, src as int, r@),
        r@[src as int] == Some(0usize),
{
    let (dist, _prev) = bfs_tree(adj, src);
    proof {
        lemma_self_distance_zero(adj@, src as int, dist@);
    }
    dist
}

/// A distance table gives every node the distance zero from itself.
pub proof fn lemma_self_distance_zero(adj: Seq<Vec<usize>>, src: int, t: Seq<Option<usize>>)
    requires
        0 <= src < adj.len(),
        is_distance_table(adj, src, t),
    ensures
        t[src] == Some(0usize),
{
    assert(reach(adj, src, 0).contains(src));
    assert(at_distance(adj, src, src, 0));
    if let Some(d) = t[src] {
        lemma_distance_unique(adj, src, src, d as nat, 0);
    }
}

/// A path of fewest edges from `start` to `end`, `None` where no path
/// leads there. From a node to itself the path is that node alone.
pub fn shortest_path(adj: &Vec<Vec<usize>>, start: usize, end: usize) -> (r: Option<Vec<usize>>)
    requires
        adj_wf(adj@),
        start < adj@.len(),
        end < adj@.len(),
    ensures
        match r {
            Some(p) => is_shortest_path(adj@, start as int, end as int, p@),
            None => !reachable(adj@, start as int, end as int),
        },
{
    let (dist, prev) = bfs_tree(adj, start);
    let de = match dist[end] {
        Some(d) => d,
        None => {
            return None;
        },
    };
    let mut rev: Vec<usize> = vec![end];
    let mut cur = end;
    let mut dc = de;
    while cur != start
        invariant
            adj_wf(adj@),
            is_distance_table(adj@, start as int, dist@),
            prev@.len() == adj@.len(),
            forall|v: int| 0 <= v < dist@.len() && #[trigger] dist@[v] is Some && dist@[v]->0 > 0 ==> {
                &&& prev@[v] is Some
                &&& prev@[v]->0 < adj@.len()
                &&& dist@[prev@[v]->0 as int] == Some((dist@[v]->0 - 1) as usize)
                &&& adj@[prev@[v]->0 as int]@.contains(v as usize)
            },
            start < adj@.len(),
            cur < adj@.len(),
            dist@[cur as int] == Some(dc),
            dc <= de,
            rev@.len() == de - dc + 1,
            rev@[0] == end,
            rev@.last() == cur,
            forall|i: int| 0 <= i < rev@.len() - 1 ==> adj@[rev@[i + 1] as int]@.contains(#[trigger] rev@[i]),
        decreases dc,
    {
        if dc == 0 {
            proof {
                lemma_distance_zero(adj@, start as int, cur as int);
            }
        }
        let p = prev[cur].unwrap();
        let ghost old_rev = rev@;
        rev.push(p);
        assert forall|i: int| 0 <= i < rev@.len() - 1 implies adj@[rev@[i + 1] as int]@.contains(#[trigger] rev@[i]) by {
            if i < old_rev.len() - 1 {
                assert(rev@[i] == old_rev[i] && rev@[i + 1] == old_rev[i + 1]);
            }
        }
        cur = p;
        dc = dc - 1;
    }
    proof {
        if dc != 0 {
            assert(at_distance(adj@, start as int, start as int, 0));
            lemma_distance_unique(adj@, start as int, start as int, dc as nat, 0);
        }
    }
    let len = rev.len();
    let mut path: Vec<usize> = Vec::new();
    let mut i: usize = len;
    while i > 0
        invariant
            len == rev@.len(),
            i <= len,
            path@.len() == len - i,
            forall|j: int| 0 <= j < path@.len() ==> #[trigger] path@[j] == rev@[len - 1 - j],
        decreases i,
    {
        i = i - 1;
        path.push(rev[i]);
    }
    proof {
        assert forall|j: int| 0 <= j < path@.len() - 1 implies adj@[path@[j] as int]@.contains(#[trigger] path@[j + 1]) by {
            assert(path@[j + 1] == rev@[len - 1 - (j + 1)]);
            assert(rev@[(len - 1 - (j + 1)) + 1] == path@[j]);
        }
    }
    Some(path)
}

/// A shortest path runs from `start` to `end` and has one node more than
/// the distance that the distance table from `start` gives `end`.
pub proof fn lemma_path_length_is_distance(
    adj: Seq<Vec<usize>>,
    start: int,
    end: int,
    p: Seq<usize>,
    t: Seq<Option<usize>>,
)
    requires
        0 <= end < adj.len(),
        is_distance_table(adj, start, t),
        is_shortest_path(adj, start, end, p),
    ensures
        p[0] == start,
        p.last() == end,
        t[end] == Some((p.len() - 1) as usize),
{
    let d = (p.len() - 1) as nat;
    assert(reach(adj, start, d).contains(end));
    assert(reachable(adj, start, end));
    let e = t[end]->0;
    lemma_distance_unique(adj, start, end, e as nat, d);
}

/// A graph and a source fix the distance table: two runs of the search
/// agree entry for entry.
pub proof fn lemma_distance_table_unique(adj: Seq<Vec<usize>>, src: int, t1: Seq<Option<usize>>, t2: Seq<Option<usize>>)
    requires
        is_distance_table(adj, src, t1),
        is_distance_table(adj, src, t2),
    ensures
        t1 == t2,
{
    assert forall|v: int| 0 <= v < t1.len() implies t1[v] == t2[v] by {
        if t1[v] is Some && t2[v] is Some {
            lemma_distance_unique(adj, src, v, t1[v]->0 as nat, t2[v]->0 as nat);
        } else if t1[v] is Some {
            assert(reach(adj, src, t1[v]->0 as nat).contains(v));
        } else if t2[v] is Some {
            assert(reach(adj, src, t2[v]->0 as nat).contains(v));
        }
    }
    assert(t1 =~= t2);
}

} // verus!
