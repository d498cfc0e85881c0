//! The location graph: unique location names in sorted order, and an
//! adjacency list over their indices with one edge per trip.
use vstd::prelude::*;
use crate::order::{str_lt, str_less, lemma_str_lt_irreflexive, lemma_str_lt_total, lemma_str_lt_transitive};

verus! {

/// The purpose of a trip.
#[derive(Clone, Copy, Debug, PartialEq, Eq, Structural, Hash)]
pub enum Category {
    Business,
    Personal,
}

/// One trip: origin, destination and category.
pub type Ride = (String, String, Category);

/// Some entry of `v` is the name `n`.
pub open spec fn has_name(v: Seq<String>, n: Seq<char>) -> bool {
    exists|i: int| 0 <= i < v.len() && v[i]@ == n
}

/// `n` is the origin or the destination of some trip.
pub open spec fn is_endpoint(rides: Seq<Ride>, n: Seq<char>) -> bool {
    exists|t: int| 0 <= t < rides.len() && (rides[t].0@ == n || rides[t].1@ == n)
}

/// The names of `v` are in strictly increasing order (so also distinct).
pub open spec fn strictly_sorted(v: Seq<String>) -> bool {
    forall|i: int, j: int| 0 <= i < j < v.len() ==> str_lt(v[i]@, v[j]@)
}

/// Every edge of the adjacency list names a node of it.
pub open spec fn adj_wf(adj: Seq<Vec<usize>>) -> bool {
    forall|u: int, j: int| 0 <= u < adj.len() && 0 <= j < adj[u].len() ==> adj[u]@[j] < adj.len()
}

/// The destinations, in trip order, of the trips that leave `origin` and
/// end at a name of `locs`.
pub open spec fn dests_from(rides: Seq<Ride>, locs: Seq<String>, origin: Seq<char>) -> Seq<Seq<char>>
    decreases rides.len(),
{
    if rides.len() == 0 {
        seq![]
    } else {
        let prev = dests_from(rides.drop_last(), locs, origin);
        let r = rides.last();
        if r.0@ == origin && has_name(locs, r.1@) {
            prev.push(r.1@)
        } else {
            prev
        }
    }
}

/// The names that the entries of a row of the adjacency list stand for.
pub open spec fn row_names(row: Seq<usize>, locs: Seq<String>) -> Seq<Seq<char>> {
    row.map_values(|v: usize| locs[v as int]@)
}

/// Adds `name` to the sorted names `v` unless it is there already.
fn insert_sorted(v: &mut Vec<String>, name: &String)
    requires
        strictly_sorted(old(v)@),
    ensures
        strictly_sorted(final(v)@),
        forall|n: Seq<char>| has_name(final(v)@, n) <==> (has_name(old(v)@, n) || n == name@),
{
    let mut i: usize = 0;
    while i < v.len() && str_less(v[i].as_str(), name.as_str())
        invariant
            i <= v.len(),
            forall|j: int| 0 <= j < i ==> str_lt(v@[j]@, name@),
        decreases v.len() - i,
    {
        i = i + 1;
    }
    if i < v.len() && v[i] == *name {
        return;
    }
    let ghost pre = v@;
    if i < v.len() {
        proof {
            lemma_str_lt_total(v@[i as int]@, name@);
        }
    }
    v.insert(i, name.clone());
    proof {
        assert forall|a: int, b: int| 0 <= a < b < v@.len() implies str_lt(v@[a]@, v@[b]@) by {
            if b == i {
            } else if a == i {
                if b > i + 1 {
                    lemma_str_lt_transitive(name@, pre[i as int]@, pre[b - 1]@);
                }
            }
        }
        assert forall|n: Seq<char>| has_name(v@, n) <==> (has_name(pre, n) || n == name@) by {
            if has_name(pre, n) {
                let k = choose|k: int| 0 <= k < pre.len() && pre[k]@ == n;
                if k < i {
                    assert(v@[k]@ == n);
                } else {
                    assert(v@[k + 1]@ == n);
                }
            }
            if n == name@ {
                assert(v@[i as int]@ == n);
            }
            if has_name(v@, n) {
                let k = choose|k: int| 0 <= k < v@.len() && v@[k]@ == n;
                if k < i {
                    assert(pre[k]@ == n);
                } else if k > i {
                    assert(pre[k - 1]@ == n);
                }
            }
        }
    }
}

/// The distinct origins and destinations of the trips, in sorted order.
pub fn unique_nodes(rides: &[Ride]) -> (r: Vec<String>)
    ensures
        strictly_sorted(r@),
        forall|n: Seq<char>| has_name(r@, n) <==> is_endpoint(rides@, n),
{
    let mut set: Vec<String> = Vec::new();
    let mut t: usize = 0;
    while t < rides.len()
        invariant
            t <= rides@.len(),
            strictly_sorted(set@),
            forall|n: Seq<char>| has_name(set@, n) <==> is_endpoint(rides@.take(t as int), n),
        decreases rides@.len() - t,
    {
        let ghost before = set@;
        insert_sorted(&mut set, &rides[t].0);
        let ghost mid = set@;
        insert_sorted(&mut set, &rides[t].1);
        proof {
            assert forall|n: Seq<char>| is_endpoint(rides@.take(t + 1), n) <==> (
                is_endpoint(rides@.take(t as int), n) || n == rides@[t as int].0@ || n == rides@[t as int].1@
            ) by {
                let s = rides@.take(t + 1);
                if is_endpoint(s, n) {
                    let k = choose|k: int| 0 <= k < s.len() && (s[k].0@ == n || s[k].1@ == n);
                    if k < t {
                        assert(rides@.take(t as int)[k] == s[k]);
                    }
                }
                if is_endpoint(rides@.take(t as int), n) {
                    let k = choose|k: int| 0 <= k < t && (rides@.take(t as int)[k].0@ == n || rides@.take(t as int)[k].1@ == n);
                    assert(s[k] == rides@.take(t as int)[k]);
                }
                if n == rides@[t as int].0@ || n == rides@[t as int].1@ {
                    assert(s[t as int] == rides@[t as int]);
                }
            }
            assert forall|n: Seq<char>| has_name(set@, n) <==> is_endpoint(rides@.take(t + 1), n) by {
                assert(has_name(mid, n) <==> (has_name(before, n) || n == rides@[t as int].0@));
            }
        }
        t = t + 1;
    }
    assert(rides@.take(rides@.len() as int) =~= rides@);
    set
}

/// The index of `name` in `locs`, if it is there.
fn position(locs: &Vec<String>, name: &String) -> (r: Option<usize>)
    ensures
        match r {
            Some(i) => i < locs@.len() && locs@[i as int]@ == name@,
            None => !has_name(locs@, name@),
        },
{
    let mut i: usize = 0;
    while i < locs.len()
        invariant
            i <= locs@.len(),
            forall|j: int| 0 <= j < i ==> locs@[j]@ != name@,
        decreases locs@.len() - i,
    {
        if locs[i] == *name {
            return Some(i);
        }
        i = i + 1;
    }
    None
}

/// Distinct positions of strictly sorted names hold distinct names.
pub proof fn lemma_sorted_distinct(v: Seq<String>, i: int, j: int)
    requires
        strictly_sorted(v),
        0 <= i < v.len(),
        0 <= j < v.len(),
        i != j,
    ensures
        v[i]@ != v[j]@,
{
    lemma_str_lt_irreflexive(v[i]@);
}

/// Sorts the names of `nodes` into the location list and builds the
/// adjacency list over its indices: for each trip whose two ends are
/// locations, one edge from the origin's index to the destination's.
pub fn adjacency_list(rides: &[Ride], nodes: &Vec<String>) -> (r: (Vec<Vec<usize>>, Vec<String>))
    ensures
        strictly_sorted(r.1@),
        forall|n: Seq<char>| has_name(r.1@, n) <==> has_name(nodes@, n),
        r.0@.len() == r.1@.len(),
        adj_wf(r.0@),
        forall|u: int| 0 <= u < r.1@.len() ==>
            row_names(#[trigger] r.0@[u]@, r.1@) == dests_from(rides@, r.1@, r.1@[u]@),
{
    let mut locations: Vec<String> = Vec::new();
    let mut i: usize = 0;
    while i < nodes.len()
        invariant
            i <= nodes@.len(),
            strictly_sorted(locations@),
            forall|n: Seq<char>| has_name(locations@, n) <==> has_name(nodes@.take(i as int), n),
        decreases nodes@.len() - i,
    {
        let ghost before = locations@;
        insert_sorted(&mut locations, &nodes[i]);
        proof {
            assert forall|n: Seq<char>| has_name(locations@, n) <==> has_name(nodes@.take(i + 1), n) by {
                let s = nodes@.take(i + 1);
                if has_name(s, n) {
                    let k = choose|k: int| 0 <= k < s.len() && s[k]@ == n;
                    if k < i {
                        assert(nodes@.take(i as int)[k] == s[k]);
                    }
                }
                if has_name(nodes@.take(i as int), n) {
                    let k = choose|k: int| 0 <= k < i && nodes@.take(i as int)[k]@ == n;
                    assert(s[k] == nodes@.take(i as int)[k]);
                }
                if n == nodes@[i as int]@ {
                    assert(s[i as int] == nodes@[i as int]);
                }
            }
        }
        i = i + 1;
    }
    assert(nodes@.take(nodes@.len() as int) =~= nodes@);
    let n = locations.len();
    let mut adjacency: Vec<Vec<usize>> = Vec::new();
    while adjacency.len() < n
        invariant
            adjacency@.len() <= n,
            forall|u: int| 0 <= u < adjacency@.len() ==> (#[trigger] adjacency@[u])@.len() == 0,
        decreases n - adjacency@.len(),
    {
        adjacency.push(Vec::new());
    }
    let mut t: usize = 0;
    while t < rides.len()
        invariant
            t <= rides@.len(),
            n == locations@.len(),
            adjacency@.len() == n,
            strictly_sorted(locations@),
            adj_wf(adjacency@),
            forall|u: int| 0 <= u < n ==>
                row_names(#[trigger] adjacency@[u]@, locations@) == dests_from(rides@.take(t as int), locations@, locations@[u]@),
        decreases rides@.len() - t,
    {
        let ghost old_adj = adjacency@;
        let ghost r = rides@[t as int];
        assert(rides@.take(t + 1).drop_last() =~= rides@.take(t as int));
        assert(rides@.take(t + 1).last() == r);
        let from = position(&locations, &rides[t].0);
        let to = position(&locations, &rides[t].1);
        match (from, to) {
            (Some(u), Some(v)) => {
                adjacency[u].push(v);
                proof {
                    assert forall|w: int| 0 <= w < n implies
                        row_names(#[trigger] adjacency@[w]@, locations@) == dests_from(rides@.take(t + 1), locations@, locations@[w]@) by {
                        assert(has_name(locations@, r.1@));
                        if w == u {
                            assert(row_names(adjacency@[w]@, locations@) =~= row_names(old_adj[w]@, locations@).push(r.1@));
                        } else {
                            lemma_sorted_distinct(locations@, w, u as int);
                        }
                    }
                }
            },
            _ => {
                proof {
                    assert forall|w: int| 0 <= w < n implies
                        row_names(#[trigger] adjacency@[w]@, locations@) == dests_from(rides@.take(t + 1), locations@, locations@[w]@) by {
                        if from.is_none() {
                            assert(locations@[w]@ != r.0@);
                        }
                    }
                }
            },
        }
        t = t + 1;
    }
    assert(rides@.take(rides@.len() as int) =~= rides@);
    (adjacency, locations)
}

/// The whole graph of the trips: the sorted distinct locations and the
/// adjacency list over their indices.
pub fn build_graph(rides: &[Ride]) -> (r: (Vec<Vec<usize>>, Vec<String>))
    ensures
        is_graph_of(rides@, r.0@, r.1@),
{
    let nodes = unique_nodes(rides);
    adjacency_list(rides, &nodes)
}

/// Two sorted lists of the same names are the same list: the location
/// list, and with it each index, does not depend on the run.
pub proof fn lemma_sorted_names_unique(v1: Seq<String>, v2: Seq<String>)
    requires
        strictly_sorted(v1),
        strictly_sorted(v2),
        forall|n: Seq<char>| has_name(v1, n) <==> has_name(v2, n),
    ensures
        v1.len() == v2.len(),
        forall|i: int| 0 <= i < v1.len() ==> (#[trigger] v1[i])@ == v2[i]@,
    decreases v1.len(),
{
    if v1.len() == 0 {
        if v2.len() > 0 {
            assert(has_name(v2, v2[0]@));
        }
    } else if v2.len() == 0 {
        assert(has_name(v1, v1[0]@));
    } else {
        assert(has_name(v1, v1[0]@));
        let j = choose|j: int| 0 <= j < v2.len() && v2[j]@ == v1[0]@;
        assert(has_name(v2, v2[0]@));
        let i = choose|i: int| 0 <= i < v1.len() && v1[i]@ == v2[0]@;
        if j > 0 && i > 0 {
            lemma_str_lt_total(v2[0]@, v1[0]@);
        } else if j > 0 {
            lemma_str_lt_irreflexive(v1[0]@);
        } else if i > 0 {
            lemma_str_lt_irreflexive(v2[0]@);
        }
        assert(v1[0]@ == v2[0]@);
        let (w1, w2) = (v1.drop_first(), v2.drop_first());
        assert forall|n: Seq<char>| has_name(w1, n) <==> has_name(w2, n) by {
            if has_name(w1, n) {
                let a = choose|a: int| 0 <= a < w1.len() && w1[a]@ == n;
                lemma_sorted_distinct(v1, 0, a + 1);
                assert(has_name(v1, n));
                let b = choose|b: int| 0 <= b < v2.len() && v2[b]@ == n;
                assert(w2[b - 1]@ == n);
            }
            if has_name(w2, n) {
                let a = choose|a: int| 0 <= a < w2.len() && w2[a]@ == n;
                lemma_sorted_distinct(v2, 0, a + 1);
                assert(has_name(v2, n));
                let b = choose|b: int| 0 <= b < v1.len() && v1[b]@ == n;
                assert(w1[b - 1]@ == n);
            }
        }
        lemma_sorted_names_unique(w1, w2);
        assert forall|i: int| 0 <= i < v1.len() implies (#[trigger] v1[i])@ == v2[i]@ by {
            if i > 0 {
                assert(v1[i] == w1[i - 1] && v2[i] == w2[i - 1]);
            }
        }
    }
}

/// `adj` and `locs` are the graph of the trips: the sorted distinct
/// endpoints, and one edge per trip between their indices.
pub open spec fn is_graph_of(rides: Seq<Ride>, adj: Seq<Vec<usize>>, locs: Seq<String>) -> bool {
    &&& strictly_sorted(locs)
    &&& forall|n: Seq<char>| has_name(locs, n) <==> is_endpoint(rides, n)
    &&& adj.len() == locs.len()
    &&& adj_wf(adj)
    &&& forall|u: int| 0 <= u < locs.len() ==> row_names(#[trigger] adj[u]@, locs) == dests_from(rides, locs, locs[u]@)
}

proof fn lemma_dests_same_names(rides: Seq<Ride>, l1: Seq<String>, l2: Seq<String>, origin: Seq<char>)
    requires
        forall|n: Seq<char>| has_name(l1, n) <==> has_name(l2, n),
    ensures
        dests_from(rides, l1, origin) == dests_from(rides, l2, origin),
    decreases rides.len(),
{
    if rides.len() > 0 {
        lemma_dests_same_names(rides.drop_last(), l1, l2, origin);
    }
}

/// The trips fix their graph: two builds agree on every name and edge.
pub proof fn lemma_graph_unique(
    rides: Seq<Ride>,
    a1: Seq<Vec<usize>>,
    l1: Seq<String>,
    a2: Seq<Vec<usize>>,
    l2: Seq<String>,
)
    requires
        is_graph_of(rides, a1, l1),
        is_graph_of(rides, a2, l2),
    ensures
        l1.len() == l2.len(),
        forall|i: int| 0 <= i < l1.len() ==> (#[trigger] l1[i])@ == l2[i]@,
        a1.len() == a2.len(),
        forall|u: int| 0 <= u < a1.len() ==> (#[trigger] a1[u])@ == a2[u]@,
{
    lemma_sorted_names_unique(l1, l2);
    assert forall|u: int| 0 <= u < a1.len() implies (#[trigger] a1[u])@ == a2[u]@ by {
        lemma_dests_same_names(rides, l1, l2, l1[u]@);
        let (r1, r2) = (a1[u]@, a2[u]@);
        assert(row_names(r1, l1) == row_names(r2, l2));
        assert(r1.len() == row_names(r1, l1).len());
        assert forall|j: int| 0 <= j < r1.len() implies r1[j] == r2[j] by {
            assert(row_names(r1, l1)[j] == l1[r1[j] as int]@);
            assert(row_names(r2, l2)[j] == l2[r2[j] as int]@);
            assert(l2[r2[j] as int]@ == l1[r2[j] as int]@);
            if r1[j] != r2[j] {
                lemma_sorted_distinct(l1, r1[j] as int, r2[j] as int);
            }
        }
        assert(r1 =~= r2);
    }
}

} // verus!
