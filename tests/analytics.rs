use ride_graph::graph::{adjacency_list, build_graph, unique_nodes, Category, Ride};
use ride_graph::paths::{bfs, shortest_path};
use ride_graph::routes::{most_frequent_pairs, popular_hubs};
use ride_graph::stats::{distance_tables, distance_totals, max_distance};

fn ride(a: &str, b: &str, c: Category) -> Ride {
    (a.to_string(), b.to_string(), c)
}

fn make_rides() -> Vec<Ride> {
    vec![
        ride("A", "B", Category::Personal),
        ride("A", "B", Category::Personal),
        ride("B", "C", Category::Business),
        ride("C", "D", Category::Business),
    ]
}

fn cycle_rides() -> Vec<Ride> {
    vec![
        ride("A", "B", Category::Personal),
        ride("B", "C", Category::Personal),
        ride("C", "A", Category::Personal),
    ]
}

#[test]
fn test_bfs_zeros() {
    let rides = cycle_rides();
    let nodes = unique_nodes(&rides);
    let (adj, _) = adjacency_list(&rides, &nodes);
    for i in 0..adj.len() {
        let d = bfs(&adj, i);
        assert_eq!(d[i], Some(0));
    }
}

#[test]
fn test_unique_nodes() {
    let rides = make_rides();
    let nodes = unique_nodes(&rides);
    let mut v: Vec<_> = nodes.into_iter().collect();
    v.sort();
    assert_eq!(v, vec!["A".to_string(), "B".to_string(), "C".to_string(), "D".to_string()]);
}

#[test]
fn test_most_frequent_pairs_counts() {
    let rides = make_rides();
    let top2 = most_frequent_pairs(&rides, 2);
    assert_eq!(top2, vec![(("A".to_string(), "B".to_string()), 2), (("B".to_string(), "C".to_string()), 1)]);
}

#[test]
fn test_max_distance() {
    let rides = cycle_rides();
    let nodes = unique_nodes(&rides);
    let (adj, _) = adjacency_list(&rides, &nodes);
    let all: Vec<_> = (0..adj.len()).map(|i| bfs(&adj, i)).collect();
    assert_eq!(max_distance(&all), 2);
}

#[test]
fn unique_nodes_are_sorted_and_distinct() {
    let rides = vec![ride("Cary", "Apex", Category::Business), ride("Apex", "Cary", Category::Personal)];
    assert_eq!(unique_nodes(&rides), vec!["Apex".to_string(), "Cary".to_string()]);
}

#[test]
fn adjacency_keeps_parallel_edges() {
    let rides = make_rides();
    let (adj, locs) = build_graph(&rides);
    assert_eq!(locs, vec!["A".to_string(), "B".to_string(), "C".to_string(), "D".to_string()]);
    assert_eq!(adj, vec![vec![1, 1], vec![2], vec![3], vec![]]);
}

#[test]
fn adjacency_skips_unknown_endpoints() {
    let rides = vec![ride("A", "B", Category::Personal), ride("A", "Z", Category::Personal)];
    let nodes = vec!["B".to_string(), "A".to_string()];
    let (adj, locs) = adjacency_list(&rides, &nodes);
    assert_eq!(locs, vec!["A".to_string(), "B".to_string()]);
    assert_eq!(adj, vec![vec![1], vec![]]);
}

#[test]
fn bfs_on_cycle() {
    let (adj, _) = build_graph(&cycle_rides());
    assert_eq!(bfs(&adj, 0), vec![Some(0), Some(1), Some(2)]);
}

#[test]
fn bfs_marks_unreachable() {
    let (adj, _) = build_graph(&make_rides());
    assert_eq!(bfs(&adj, 2), vec![None, None, Some(0), Some(1)]);
}

#[test]
fn top_routes_tie_break_and_truncation() {
    let rides = vec![
        ride("B", "A", Category::Personal),
        ride("A", "C", Category::Personal),
        ride("A", "B", Category::Personal),
        ride("A", "C", Category::Business),
    ];
    let all = most_frequent_pairs(&rides, 10);
    assert_eq!(
        all,
        vec![
            (("A".to_string(), "C".to_string()), 2),
            (("A".to_string(), "B".to_string()), 1),
            (("B".to_string(), "A".to_string()), 1),
        ]
    );
    assert_eq!(most_frequent_pairs(&rides, 0), vec![]);
    assert_eq!(most_frequent_pairs(&rides, 1).len(), 1);
}

#[test]
fn shortest_path_follows_chain() {
    let (adj, _) = build_graph(&make_rides());
    assert_eq!(shortest_path(&adj, 0, 3), Some(vec![0, 1, 2, 3]));
    assert_eq!(shortest_path(&adj, 1, 1), Some(vec![1]));
}

#[test]
fn shortest_path_takes_fewest_hops() {
    let rides = vec![
        ride("A", "B", Category::Personal),
        ride("B", "C", Category::Personal),
        ride("C", "D", Category::Personal),
        ride("A", "D", Category::Personal),
    ];
    let (adj, _) = build_graph(&rides);
    assert_eq!(shortest_path(&adj, 0, 3), Some(vec![0, 3]));
}

#[test]
fn shortest_path_between_disconnected_nodes() {
    let (adj, _) = build_graph(&make_rides());
    assert_eq!(shortest_path(&adj, 3, 0), None);
}

#[test]
fn popular_hubs_by_category() {
    let (personal, business) = popular_hubs(&make_rides());
    assert_eq!(personal, "A");
    assert_eq!(business, "C");
    let rides = vec![ride("X", "Y", Category::Personal), ride("Y", "Z", Category::Personal)];
    assert_eq!(popular_hubs(&rides), ("Y".to_string(), String::new()));
}

#[test]
fn empty_records() {
    let rides: Vec<Ride> = vec![];
    assert!(unique_nodes(&rides).is_empty());
    let (adj, locs) = build_graph(&rides);
    assert!(adj.is_empty());
    assert!(locs.is_empty());
    assert!(most_frequent_pairs(&rides, 5).is_empty());
    assert_eq!(popular_hubs(&rides), (String::new(), String::new()));
    let all = distance_tables(&adj);
    let totals = distance_totals(&all);
    assert_eq!((totals.count, totals.sum, totals.sum_sq, totals.max), (0, 0, 0, 0));
    assert_eq!(max_distance(&all), 0);
}

#[test]
fn totals_on_cycle() {
    let (adj, _) = build_graph(&cycle_rides());
    let all = distance_tables(&adj);
    let totals = distance_totals(&all);
    assert_eq!(totals.count, 9);
    assert_eq!(totals.sum, 9);
    assert_eq!(totals.sum_sq, 15);
    assert_eq!(totals.max, 2);
    assert!(totals.sum <= totals.max as u128 * totals.count);
}

#[test]
fn totals_skip_unreachable() {
    let (adj, _) = build_graph(&make_rides());
    let totals = distance_totals(&distance_tables(&adj));
    assert_eq!((totals.count, totals.sum, totals.sum_sq, totals.max), (10, 10, 20, 3));
}

#[test]
fn pipeline_is_repeatable() {
    let rides = make_rides();
    let first = (build_graph(&rides), most_frequent_pairs(&rides, 3), popular_hubs(&rides));
    let second = (build_graph(&rides), most_frequent_pairs(&rides, 3), popular_hubs(&rides));
    assert_eq!(first, second);
    let (adj, _) = build_graph(&rides);
    assert_eq!(distance_tables(&adj), distance_tables(&adj));
}
