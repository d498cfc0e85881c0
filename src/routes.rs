//! Tallies over the trips: the most frequent direct routes, and the most
//! visited location of each category.
use vstd::prelude::*;
use vstd::seq_lib::seq_to_set_is_finite;
use vstd::set_lib::lemma_len_subset;
use crate::graph::{Category, Ride};
use crate::order::{str_lt, str_less, lemma_str_lt_irreflexive, lemma_str_lt_total, lemma_str_lt_transitive};

verus! {

/// A route with its count, as ordinary values.
pub type RouteCount = ((String, String), usize);

/// How many trips go from `a` to `b`.
pub open spec fn pair_count(rides: Seq<Ride>, a: Seq<char>, b: Seq<char>) -> nat
    decreases rides.len(),
{
    if rides.len() == 0 {
        0
    } else {
        pair_count(rides.drop_last(), a, b) + if rides.last().0@ == a && rides.last().1@ == b {
            1nat
        } else {
            0nat
        }
    }
}

/// The origin, destination and count of an entry.
pub open spec fn route_view(e: RouteCount) -> (Seq<char>, Seq<char>, nat) {
    (e.0.0@, e.0.1@, e.1 as nat)
}

/// `x` ranks before `y`: a higher count first, then the smaller origin,
/// then the smaller destination.
pub open spec fn ranks_before(x: (Seq<char>, Seq<char>, nat), y: (Seq<char>, Seq<char>, nat)) -> bool {
    x.2 > y.2 || (x.2 == y.2 && (str_lt(x.0, y.0) || (x.0 == y.0 && str_lt(x.1, y.1))))
}

/// The entries are in strictly increasing rank.
pub open spec fn ranked(v: Seq<RouteCount>) -> bool {
    forall|i: int, j: int| 0 <= i < j < v.len() ==> ranks_before(route_view(v[i]), route_view(v[j]))
}

/// Some entry of `v` is the route from `a` to `b`.
pub open spec fn has_route(v: Seq<RouteCount>, a: Seq<char>, b: Seq<char>) -> bool {
    exists|i: int| 0 <= i < v.len() && v[i].0.0@ == a && v[i].0.1@ == b
}

/// Each entry holds a route that some trip takes, with its exact count.
pub open spec fn counts_exact(rides: Seq<Ride>, v: Seq<RouteCount>) -> bool {
    forall|i: int| 0 <= i < v.len() ==> {
        &&& (#[trigger] v[i]).1 == pair_count(rides, v[i].0.0@, v[i].0.1@)
        &&& v[i].1 > 0
    }
}

proof fn lemma_ranks_irreflexive(x: (Seq<char>, Seq<char>, nat))
    ensures
        !ranks_before(x, x),
{
    lemma_str_lt_irreflexive(x.0);
    lemma_str_lt_irreflexive(x.1);
}

proof fn lemma_ranks_transitive(
    x: (Seq<char>, Seq<char>, nat),
    y: (Seq<char>, Seq<char>, nat),
    z: (Seq<char>, Seq<char>, nat),
)
    requires
        ranks_before(x, y),
        ranks_before(y, z),
    ensures
        ranks_before(x, z),
{
    if x.2 == y.2 && y.2 == z.2 {
        if str_lt(x.0, y.0) && str_lt(y.0, z.0) {
            lemma_str_lt_transitive(x.0, y.0, z.0);
        } else if x.0 == y.0 && y.0 == z.0 {
            lemma_str_lt_transitive(x.1, y.1, z.1);
        }
    }
}

proof fn lemma_ranks_total(x: (Seq<char>, Seq<char>, nat), y: (Seq<char>, Seq<char>, nat))
    requires
        x.0 != y.0 || x.1 != y.1,
    ensures
        ranks_before(x, y) || ranks_before(y, x),
{
    lemma_str_lt_total(x.0, y.0);
    lemma_str_lt_total(x.1, y.1);
}

/// Whether `x` ranks before `y`.
fn ranks_first(x: &RouteCount, y: &RouteCount) -> (r: bool)
    ensures
        r == ranks_before(route_view(*x), route_view(*y)),
{
    if x.1 != y.1 {
        return x.1 > y.1;
    }
    if str_less(x.0.0.as_str(), y.0.0.as_str()) {
        return true;
    }
    x.0.0 == y.0.0 && str_less(x.0.1.as_str(), y.0.1.as_str())
}

/// Whether some entry of `v` is the route from `a` to `b`.
fn find_route(v: &Vec<RouteCount>, a: &String, b: &String) -> (r: bool)
    ensures
        r == has_route(v@, a@, b@),
{
    let mut i: usize = 0;
    while i < v.len()
        invariant
            i <= v@.len(),
            forall|j: int| 0 <= j < i ==> !(v@[j].0.0@ == a@ && v@[j].0.1@ == b@),
        decreases v@.len() - i,
    {
        if v[i].0.0 == *a && v[i].0.1 == *b {
            return true;
        }
        i = i + 1;
    }
    false
}

/// How many trips go from `a` to `b`.
fn count_route(rides: &[Ride], a: &String, b: &String) -> (r: usize)
    ensures
        r == pair_count(rides@, a@, b@),
{
    let mut c: usize = 0;
    let mut t: usize = 0;
    while t < rides.len()
        invariant
            t <= rides@.len(),
            c <= t,
            c == pair_count(rides@.take(t as int), a@, b@),
        decreases rides@.len() - t,
    {
        assert(rides@.take(t + 1).drop_last() =~= rides@.take(t as int));
        if rides[t].0 == *a && rides[t].1 == *b {
            c = c + 1;
        }
        t = t + 1;
    }
    assert(rides@.take(rides@.len() as int) =~= rides@);
    c
}

/// `r` is the top `k` of the routes that the trips take: each with its
/// count, in rank order, and no route left out that would rank before one
/// kept or fit within `k`.
pub open spec fn is_top_routes(rides: Seq<Ride>, k: nat, r: Seq<RouteCount>) -> bool {
    &&& r.len() <= k
    &&& ranked(r)
    &&& counts_exact(rides, r)
    &&& forall|t: int| 0 <= t < rides.len() ==> {
        ||| has_route(r, (#[trigger] rides[t]).0@, rides[t].1@)
        ||| (r.len() == k && forall|i: int| 0 <= i < r.len() ==>
            ranks_before(route_view(r[i]), (rides[t].0@, rides[t].1@, pair_count(rides, rides[t].0@, rides[t].1@))))
    }
}

proof fn lemma_pair_count_positive(rides: Seq<Ride>, t: int)
    requires
        0 <= t < rides.len(),
    ensures
        pair_count(rides, rides[t].0@, rides[t].1@) >= 1,
    decreases rides.len(),
{
    if t < rides.len() - 1 {
        lemma_pair_count_positive(rides.drop_last(), t);
        assert(rides.drop_last()[t] == rides[t]);
    }
}

/// Puts `e` into the ranked entries `v` at its place, and says where.
fn insert_ranked(v: &mut Vec<RouteCount>, e: RouteCount) -> (pos: usize)
    requires
        ranked(old(v)@),
        !has_route(old(v)@, e.0.0@, e.0.1@),
    ensures
        ranked(final(v)@),
        pos <= old(v)@.len(),
        final(v)@ == old(v)@.insert(pos as int, e),
{
    let ghost pre = v@;
    let mut i: usize = 0;
    while i < v.len() && ranks_first(&v[i], &e)
        invariant
            v@ == pre,
            i <= v@.len(),
            forall|j: int| 0 <= j < i ==> ranks_before(route_view(v@[j]), route_view(e)),
        decreases v@.len() - i,
    {
        i = i + 1;
    }
    proof {
        if i < pre.len() {
            lemma_ranks_total(route_view(pre[i as int]), route_view(e));
        }
    }
    let ghost eg = e;
    v.insert(i, e);
    proof {
        assert forall|a: int, b: int| 0 <= a < b < v@.len() implies ranks_before(route_view(v@[a]), route_view(v@[b])) by {
            if a == i && b > i + 1 {
                lemma_ranks_transitive(route_view(eg), route_view(pre[i as int]), route_view(pre[b - 1]));
            }
        }
    }
    i
}

/// The `most_frequent` routes that the trips take most often, each with
/// its count; equal counts go by origin, then destination, in sorted order.
pub fn most_frequent_pairs(rides: &[Ride], most_frequent: usize) -> (r: Vec<RouteCount>)
    ensures
        is_top_routes(rides@, most_frequent as nat, r@),
{
    let mut routes: Vec<RouteCount> = Vec::new();
    let mut t: usize = 0;
    while t < rides.len()
        invariant
            t <= rides@.len(),
            ranked(routes@),
            counts_exact(rides@, routes@),
            forall|s: int| 0 <= s < t ==> has_route(routes@, (#[trigger] rides@[s]).0@, rides@[s].1@),
        decreases rides@.len() - t,
    {
        let a = &rides[t].0;
        let b = &rides[t].1;
        if !find_route(&routes, a, b) {
            let c = count_route(rides, a, b);
            proof {
                lemma_pair_count_positive(rides@, t as int);
            }
            let e: RouteCount = ((a.clone(), b.clone()), c);
            let ghost pre = routes@;
            let ghost eg = e;
            let pos = insert_ranked(&mut routes, e);
            proof {
                assert forall|i: int| 0 <= i < routes@.len() implies {
                    &&& (#[trigger] routes@[i]).1 == pair_count(rides@, routes@[i].0.0@, routes@[i].0.1@)
                    &&& routes@[i].1 > 0
                } by {
                    if i < pos {
                        assert(routes@[i] == pre[i]);
                    } else if i > pos {
                        assert(routes@[i] == pre[i - 1]);
                    }
                }
                assert forall|s: int| 0 <= s <= t implies has_route(routes@, (#[trigger] rides@[s]).0@, rides@[s].1@) by {
                    if s < t {
                        let j = choose|j: int| 0 <= j < pre.len() && pre[j].0.0@ == rides@[s].0@ && pre[j].0.1@ == rides@[s].1@;
                        if j < pos {
                            assert(routes@[j] == pre[j]);
                        } else {
                            assert(routes@[j + 1] == pre[j]);
                        }
                    } else {
                        assert(routes@[pos as int] == eg);
                    }
                }
            }
        }
        t = t + 1;
    }
    let ghost full = routes@;
    routes.truncate(most_frequent);
    proof {
        assert forall|s: int| 0 <= s < rides@.len() implies {
            ||| has_route(routes@, (#[trigger] rides@[s]).0@, rides@[s].1@)
            ||| (routes@.len() == most_frequent && forall|i: int| 0 <= i < routes@.len() ==>
                ranks_before(route_view(routes@[i]), (rides@[s].0@, rides@[s].1@, pair_count(rides@, rides@[s].0@, rides@[s].1@))))
        } by {
            assert(has_route(full, rides@[s].0@, rides@[s].1@));
            let m = choose|m: int| 0 <= m < full.len() && full[m].0.0@ == rides@[s].0@ && full[m].0.1@ == rides@[s].1@;
            if m < routes@.len() {
                assert(routes@[m] == full[m]);
            } else {
                assert(full[m].1 == pair_count(rides@, rides@[s].0@, rides@[s].1@));
                assert(route_view(full[m]) == (rides@[s].0@, rides@[s].1@, pair_count(rides@, rides@[s].0@, rides@[s].1@)));
                assert forall|i: int| 0 <= i < routes@.len() implies
                    ranks_before(route_view(routes@[i]), (rides@[s].0@, rides@[s].1@, pair_count(rides@, rides@[s].0@, rides@[s].1@))) by {
                    assert(routes@[i] == full[i]);
                    assert(i < m);
                    assert(ranks_before(route_view(full[i]), route_view(full[m])));
                }
            }
        }
        assert forall|i: int| 0 <= i < routes@.len() implies {
            &&& (#[trigger] routes@[i]).1 == pair_count(rides@, routes@[i].0.0@, routes@[i].0.1@)
            &&& routes@[i].1 > 0
        } by {
            assert(routes@[i] == full[i]);
        }
    }
    routes
}

/// The distinct routes that the trips take.
pub open spec fn route_set(rides: Seq<Ride>) -> Set<(Seq<char>, Seq<char>)> {
    rides.map_values(|r: Ride| (r.0@, r.1@)).to_set()
}

proof fn lemma_pair_count_source(rides: Seq<Ride>, a: Seq<char>, b: Seq<char>)
    requires
        pair_count(rides, a, b) > 0,
    ensures
        exists|t: int| 0 <= t < rides.len() && rides[t].0@ == a && rides[t].1@ == b,
    decreases rides.len(),
{
    let r = rides.last();
    if !(r.0@ == a && r.1@ == b) {
        lemma_pair_count_source(rides.drop_last(), a, b);
        let t = choose|t: int| 0 <= t < rides.drop_last().len() && rides.drop_last()[t].0@ == a && rides.drop_last()[t].1@ == b;
        assert(rides[t] == rides.drop_last()[t]);
    } else {
        assert(rides[rides.len() - 1] == r);
    }
}

/// The top routes number at most `k` and at most the distinct routes that
/// the trips take; they come in rank order.
pub proof fn lemma_top_routes_bounded(rides: Seq<Ride>, k: nat, r: Seq<RouteCount>)
    requires
        is_top_routes(rides, k, r),
    ensures
        r.len() <= k,
        r.len() <= route_set(rides).len(),
        forall|i: int, j: int| 0 <= i < j < r.len() ==> ranks_before(route_view(r[i]), route_view(r[j])),
{
    let pairs = r.map_values(|e: RouteCount| (e.0.0@, e.0.1@));
    assert forall|i: int, j: int| 0 <= i < j < pairs.len() implies pairs[i] != pairs[j] by {
        assert(ranks_before(route_view(r[i]), route_view(r[j])));
        if pairs[i] == pairs[j] {
            assert(r[i].1 == pair_count(rides, r[i].0.0@, r[i].0.1@));
            assert(r[j].1 == pair_count(rides, r[j].0.0@, r[j].0.1@));
            lemma_ranks_irreflexive(route_view(r[i]));
        }
    }
    assert(pairs.no_duplicates());
    pairs.unique_seq_to_set();
    let all = rides.map_values(|x: Ride| (x.0@, x.1@));
    assert forall|q: (Seq<char>, Seq<char>)| pairs.to_set().contains(q) implies route_set(rides).contains(q) by {
        let i = choose|i: int| 0 <= i < pairs.len() && pairs[i] == q;
        assert(r[i].1 > 0 && r[i].1 == pair_count(rides, r[i].0.0@, r[i].0.1@));
        lemma_pair_count_source(rides, q.0, q.1);
        let t = choose|t: int| 0 <= t < rides.len() && rides[t].0@ == q.0 && rides[t].1@ == q.1;
        assert(all[t] == q);
    }
    seq_to_set_is_finite(all);
    lemma_len_subset(pairs.to_set(), route_set(rides));
}

/// How often `n` is the origin or the destination of a trip of `cat`.
pub open spec fn tally(rides: Seq<Ride>, cat: Category, n: Seq<char>) -> nat
    decreases rides.len(),
{
    if rides.len() == 0 {
        0
    } else {
        let r = rides.last();
        tally(rides.drop_last(), cat, n)
            + if r.2 == cat && r.0@ == n { 1nat } else { 0nat }
            + if r.2 == cat && r.1@ == n { 1nat } else { 0nat }
    }
}

/// Some trip is of category `cat`.
pub open spec fn has_category(rides: Seq<Ride>, cat: Category) -> bool {
    exists|t: int| 0 <= t < rides.len() && rides[t].2 == cat
}

/// `h` is a hub of `cat`: a location of highest tally, or the empty name
/// where no trip is of that category.
pub open spec fn is_hub(rides: Seq<Ride>, cat: Category, h: Seq<char>) -> bool {
    if has_category(rides, cat) {
        &&& tally(rides, cat, h) > 0
        &&& forall|n: Seq<char>| #[trigger] tally(rides, cat, n) <= tally(rides, cat, h)
    } else {
        h.len() == 0
    }
}

proof fn lemma_tally_bound(rides: Seq<Ride>, cat: Category, n: Seq<char>)
    ensures
        tally(rides, cat, n) <= 2 * rides.len(),
    decreases rides.len(),
{
    if rides.len() > 0 {
        lemma_tally_bound(rides.drop_last(), cat, n);
    }
}

proof fn lemma_tally_positive(rides: Seq<Ride>, cat: Category, t: int)
    requires
        0 <= t < rides.len(),
        rides[t].2 == cat,
    ensures
        tally(rides, cat, rides[t].0@) >= 1,
        tally(rides, cat, rides[t].1@) >= 1,
    decreases rides.len(),
{
    if t < rides.len() - 1 {
        lemma_tally_positive(rides.drop_last(), cat, t);
        assert(rides.drop_last()[t] == rides[t]);
    }
}

proof fn lemma_tally_source(rides: Seq<Ride>, cat: Category, n: Seq<char>)
    requires
        tally(rides, cat, n) > 0,
    ensures
        exists|t: int| 0 <= t < rides.len() && rides[t].2 == cat && (rides[t].0@ == n || rides[t].1@ == n),
    decreases rides.len(),
{
    let r = rides.last();
    if !(r.2 == cat && (r.0@ == n || r.1@ == n)) {
        lemma_tally_source(rides.drop_last(), cat, n);
        let t = choose|t: int| 0 <= t < rides.drop_last().len() && rides.drop_last()[t].2 == cat
            && (rides.drop_last()[t].0@ == n || rides.drop_last()[t].1@ == n);
        assert(rides[t] == rides.drop_last()[t]);
    } else {
        assert(rides[rides.len() - 1] == r);
    }
}

/// The tally of `n` in category `cat`.
fn count_tally(rides: &[Ride], cat: Category, n: &String) -> (r: usize)
    requires
        rides@.len() <= usize::MAX / 2,
    ensures
        r == tally(rides@, cat, n@),
{
    let mut c: usize = 0;
    let mut t: usize = 0;
    while t < rides.len()
        invariant
            t <= rides@.len(),
            rides@.len() <= usize::MAX / 2,
            c <= 2 * t,
            c == tally(rides@.take(t as int), cat, n@),
        decreases rides@.len() - t,
    {
        assert(rides@.take(t + 1).drop_last() =~= rides@.take(t as int));
        if rides[t].2 == cat && rides[t].0 == *n {
            c = c + 1;
        }
        if rides[t].2 == cat && rides[t].1 == *n {
            c = c + 1;
        }
        t = t + 1;
    }
    assert(rides@.take(rides@.len() as int) =~= rides@);
    c
}

/// The location of highest tally in category `cat`; of equal tallies the
/// one met first, in trip order, origin before destination.
fn hub_of(rides: &[Ride], cat: Category) -> (r: String)
    requires
        rides@.len() <= usize::MAX / 2,
    ensures
        is_hub(rides@, cat, r@),
{
    let mut best = String::new();
    let mut best_count: usize = 0;
    let mut t: usize = 0;
    while t < rides.len()
        invariant
            t <= rides@.len(),
            rides@.len() <= usize::MAX / 2,
            best_count == 0 ==> best@.len() == 0,
            best_count > 0 ==> best_count == tally(rides@, cat, best@),
            best_count > 0 ==> has_category(rides@, cat),
            forall|s: int| 0 <= s < t && (#[trigger] rides@[s]).2 == cat ==> {
                &&& tally(rides@, cat, rides@[s].0@) <= best_count
                &&& tally(rides@, cat, rides@[s].1@) <= best_count
            },
        decreases rides@.len() - t,
    {
        if rides[t].2 == cat {
            assert(has_category(rides@, cat));
            let c = count_tally(rides, cat, &rides[t].0);
            if c > best_count {
                best = rides[t].0.clone();
                best_count = c;
            }
            let c = count_tally(rides, cat, &rides[t].1);
            if c > best_count {
                best = rides[t].1.clone();
                best_count = c;
            }
        }
        t = t + 1;
    }
    proof {
        if has_category(rides@, cat) {
            let t = choose|t: int| 0 <= t < rides@.len() && rides@[t].2 == cat;
            lemma_tally_positive(rides@, cat, t);
            assert forall|n: Seq<char>| #[trigger] tally(rides@, cat, n) <= tally(rides@, cat, best@) by {
                if tally(rides@, cat, n) > 0 {
                    lemma_tally_source(rides@, cat, n);
                    let s = choose|s: int| 0 <= s < rides@.len() && rides@[s].2 == cat && (rides@[s].0@ == n || rides@[s].1@ == n);
                }
            }
        } else {
            assert(best_count == 0);
        }
    }
    best
}

/// The hub of personal trips and the hub of business trips.
pub fn popular_hubs(rides: &[Ride]) -> (r: (String, String))
    requires
        rides@.len() <= usize::MAX / 2,
    ensures
        is_hub(rides@, Category::Personal, r.0@),
        is_hub(rides@, Category::Business, r.1@),
{
    (hub_of(rides, Category::Personal), hub_of(rides, Category::Business))
}

} // verus!
