use flight_routes::graph::{build_airport, calculate, ColumnVal, FlightStats, Graph};
use flight_routes::path::fastest_route;

// Durations are fixed-point integers; these tests measure in thousandths
// of a minute, so 1.5 minutes becomes 1500 units.

fn s(text: &str) -> ColumnVal {
    ColumnVal::One(text.to_string())
}

fn t(units: u32) -> ColumnVal {
    ColumnVal::Two(units)
}

fn stats_of<'a>(g: &'a Graph, origin: &str, dest: &str) -> Option<&'a FlightStats> {
    for oe in g.entries.iter() {
        if oe.origin == origin {
            for ee in oe.edges.iter() {
                if ee.dest == dest {
                    return Some(&ee.stats);
                }
            }
        }
    }
    None
}

fn origin_count(g: &Graph) -> usize {
    g.entries.len()
}

#[test]
fn test_build_airport_runs() {
    let rows = vec![vec![s("BOS"), s("LAX"), t(6000)]];
    let graph = build_airport(&rows);
    assert!(stats_of(&graph, "BOS", "LAX").is_some());
    let stats = stats_of(&graph, "BOS", "LAX").unwrap();
    assert_eq!(stats.count, 1);
    assert_eq!(stats.average, 6000);
    assert_eq!(stats.std_dev, 0);
    assert_eq!(origin_count(&graph), 1);
}

#[test]
fn test_fastest_route() {
    let rows = vec![
        vec![s("JFK"), s("ORD"), t(150_000)],
        vec![s("ORD"), s("LAX"), t(260_000)],
        vec![s("JFK"), s("LAX"), t(330_000)],
    ];
    let graph = build_airport(&rows);
    let start = "JFK";
    let dest = "LAX";
    let result = fastest_route(&graph, start, dest);
    assert!(result.is_some(), "No route found from {} to {}", start, dest);
}

#[test]
fn test_single_record_aggregation() {
    let rows = vec![vec![s("AAA"), s("BBB"), t(777)]];
    let graph = build_airport(&rows);
    assert_eq!(origin_count(&graph), 1);
    assert_eq!(graph.entries[0].origin, "AAA");
    assert_eq!(graph.entries[0].edges.len(), 1);
    assert_eq!(graph.entries[0].edges[0].dest, "BBB");
    let stats = stats_of(&graph, "AAA", "BBB").unwrap();
    assert_eq!(stats.count, 1);
    assert_eq!(stats.average, 777);
    assert_eq!(stats.std_dev, 0);
}

#[test]
fn test_same_pair_mean() {
    let rows = vec![
        vec![s("AAA"), s("BBB"), t(100)],
        vec![s("AAA"), s("BBB"), t(200)],
        vec![s("AAA"), s("BBB"), t(300)],
    ];
    let graph = build_airport(&rows);
    let stats = stats_of(&graph, "AAA", "BBB").unwrap();
    assert_eq!(stats.count, 3);
    assert_eq!(stats.average, 200);
    assert_eq!(stats.times, vec![100, 200, 300]);
}

#[test]
fn test_route_to_self() {
    let rows = vec![
        vec![s("AAA"), s("BBB"), t(1000)],
        vec![s("BBB"), s("CCC"), t(1000)],
    ];
    let graph = build_airport(&rows);
    let result = fastest_route(&graph, "BBB", "BBB");
    let (cost, path) = result.unwrap();
    assert_eq!(cost, 0);
    assert_eq!(path, vec!["BBB".to_string()]);
}

#[test]
fn test_no_route_when_unreachable() {
    let rows = vec![
        vec![s("AAA"), s("BBB"), t(1000)],
        vec![s("CCC"), s("DDD"), t(1000)],
    ];
    let graph = build_airport(&rows);
    assert!(fastest_route(&graph, "AAA", "DDD").is_none());
}

#[test]
fn test_no_route_when_start_absent() {
    let rows = vec![vec![s("AAA"), s("BBB"), t(1000)]];
    let graph = build_airport(&rows);
    assert!(fastest_route(&graph, "ZZZ", "BBB").is_none());
}

#[test]
fn test_no_route_against_edge_direction() {
    let rows = vec![vec![s("AAA"), s("BBB"), t(1000)]];
    let graph = build_airport(&rows);
    assert!(fastest_route(&graph, "BBB", "AAA").is_none());
}

#[test]
fn test_prefers_cheaper_two_hop() {
    let rows = vec![
        vec![s("AAA"), s("BBB"), t(1000)],
        vec![s("BBB"), s("CCC"), t(1000)],
        vec![s("AAA"), s("CCC"), t(5000)],
    ];
    let graph = build_airport(&rows);
    let (cost, path) = fastest_route(&graph, "AAA", "CCC").unwrap();
    assert_eq!(cost, 2000);
    assert_eq!(
        path,
        vec!["AAA".to_string(), "BBB".to_string(), "CCC".to_string()]
    );
}

#[test]
fn test_jfk_bos_aggregate_and_route() {
    let rows = vec![
        vec![s("JFK"), s("BOS"), t(1500)],
        vec![s("JFK"), s("BOS"), t(2000)],
        vec![s("JFK"), s("BOS"), t(1700)],
    ];
    let graph = build_airport(&rows);
    let stats = stats_of(&graph, "JFK", "BOS").unwrap();
    assert_eq!(stats.count, 3);
    // exact mean 1733.33..; the floor of it in fixed-point units
    assert_eq!(stats.average, 1733);
    // exact population standard deviation 205.48..; its floor
    assert_eq!(stats.std_dev, 205);
    let (cost, path) = fastest_route(&graph, "JFK", "BOS").unwrap();
    assert_eq!(cost, 1733);
    assert_eq!(path, vec!["JFK".to_string(), "BOS".to_string()]);
}

#[test]
fn test_std_dev_positive_when_unequal() {
    let rows = vec![
        vec![s("AAA"), s("BBB"), t(1000)],
        vec![s("AAA"), s("BBB"), t(2000)],
    ];
    let graph = build_airport(&rows);
    let stats = stats_of(&graph, "AAA", "BBB").unwrap();
    // variance is 250000 square units, so the deviation is exactly 500
    assert_eq!(stats.std_dev, 500);
    assert_eq!(stats.average, 1500);
}

#[test]
fn test_calculate_exact_values() {
    let times: Vec<u32> = vec![1500, 2000, 1700];
    let (avg, std) = calculate(&times);
    assert_eq!(avg, 1733);
    assert_eq!(std, 205);
}

#[test]
fn test_malformed_rows_skipped() {
    let rows = vec![
        vec![s("AAA"), s("BBB")],                          // too short
        vec![t(5), s("BBB"), t(1000)],                     // wrong type first
        vec![s("AAA"), t(7), t(1000)],                     // wrong type second
        vec![s("AAA"), s("BBB"), s("CCC")],                // wrong type third
        vec![s("AAA"), s("BBB"), t(1200), s("ignored")],   // extra column is fine
    ];
    let graph = build_airport(&rows);
    let stats = stats_of(&graph, "AAA", "BBB").unwrap();
    assert_eq!(stats.count, 1);
    assert_eq!(stats.average, 1200);
}

#[test]
fn test_empty_input() {
    let rows: Vec<Vec<ColumnVal>> = Vec::new();
    let graph = build_airport(&rows);
    assert_eq!(origin_count(&graph), 0);
    assert!(fastest_route(&graph, "AAA", "BBB").is_none());
}

#[test]
fn test_route_tie_costs_still_minimal() {
    // two routes of equal cost: either may come back, but the cost is fixed
    let rows = vec![
        vec![s("AAA"), s("BBB"), t(1000)],
        vec![s("AAA"), s("CCC"), t(1000)],
        vec![s("BBB"), s("DDD"), t(1000)],
        vec![s("CCC"), s("DDD"), t(1000)],
    ];
    let graph = build_airport(&rows);
    let (cost, path) = fastest_route(&graph, "AAA", "DDD").unwrap();
    assert_eq!(cost, 2000);
    assert_eq!(path.len(), 3);
    assert_eq!(path[0], "AAA");
    assert_eq!(path[2], "DDD");
}

#[test]
fn test_multi_edge_weights_use_average() {
    // AAA->BBB averages to 2000 from observations 1000 and 3000
    let rows = vec![
        vec![s("AAA"), s("BBB"), t(1000)],
        vec![s("AAA"), s("BBB"), t(3000)],
        vec![s("BBB"), s("CCC"), t(500)],
    ];
    let graph = build_airport(&rows);
    let (cost, path) = fastest_route(&graph, "AAA", "CCC").unwrap();
    assert_eq!(cost, 2500);
    assert_eq!(
        path,
        vec!["AAA".to_string(), "BBB".to_string(), "CCC".to_string()]
    );
}
