use trip_planner::network::{new_edge, new_vertex, Edge, Graph, Location, Transportation};
use trip_planner::paths::{get_possible_paths, GraphIntegrityError};
use trip_planner::ranking::{accepted_trips, rank_trips, sort_trips, RankKey};
use trip_planner::search::dijkstra_time;
use trip_planner::trip::{calculate, ConstraintViolation, TripMetrics};

use Location::{Home, ARL, BAL, NCR, ROS, WAS};
use Transportation::{
    AmtrakAcela, AmtrakNE, Bikeshare, Car, ElectricBikeshare, Marc, Metro, PersonalBike, Walk,
};

fn graph_of(vertices: Vec<(Location, Vec<Edge>)>) -> Graph {
    let mut g = Graph::new();
    for (l, es) in vertices {
        g.add_vertex(new_vertex(l, es));
    }
    g
}

fn sample_network() -> Graph {
    graph_of(vec![
        (
            Home,
            vec![
                new_edge(ARL, Car, 85, 0, 2203, 7),
                new_edge(WAS, Car, 78, 0, 3330, 0),
                new_edge(BAL, Walk, 18, 0, 0, -7),
                new_edge(BAL, PersonalBike, 7, 0, 0, -2),
                new_edge(BAL, Car, 8, 0, 2822, 2),
                new_edge(NCR, Car, 58, 0, 1199, 0),
            ],
        ),
        (
            BAL,
            vec![
                new_edge(WAS, AmtrakAcela, 38, 10, 2450, 0),
                new_edge(NCR, AmtrakNE, 30, 10, 1200, 0),
                new_edge(NCR, Marc, 40, 10, 900, 1),
            ],
        ),
        (
            WAS,
            vec![
                new_edge(ARL, PersonalBike, 40, 0, 0, -5),
                new_edge(ARL, Bikeshare, 40, 0, 300, -1),
                new_edge(ARL, ElectricBikeshare, 40, 0, 700, -1),
                new_edge(ROS, Metro, 24, 7, 255, 2),
            ],
        ),
        (
            NCR,
            vec![
                new_edge(WAS, Metro, 45, 7, 545, 2),
                new_edge(WAS, Marc, 17, 10, 900, 1),
                new_edge(WAS, AmtrakNE, 17, 10, 1200, 0),
                new_edge(ROS, Metro, 35, 7, 660, 2),
            ],
        ),
        (ROS, vec![new_edge(ARL, Walk, 5, 0, 0, 0), new_edge(ARL, PersonalBike, 4, 0, 0, 0)]),
        (ARL, vec![]),
    ])
}

fn metrics(total_time: u64, total_cost: u64, total_hassle_units: i64) -> TripMetrics {
    TripMetrics { total_time, total_cost, total_hassle_units }
}

#[test]
fn edge_total_time_is_travel_plus_wait() {
    let e = new_edge(WAS, AmtrakAcela, 38, 10, 2450, 0);
    assert_eq!(e.total_time(), 48);
    let big = new_edge(WAS, Car, u32::MAX, u32::MAX, 0, 0);
    assert_eq!(big.total_time(), 2 * (u32::MAX as u64));
}

#[test]
fn enumeration_counts_two_branches_then_one() {
    let g = graph_of(vec![
        (Home, vec![new_edge(BAL, Car, 1, 0, 0, 0), new_edge(WAS, Car, 1, 0, 0, 0)]),
        (BAL, vec![new_edge(NCR, Car, 1, 0, 0, 0)]),
        (WAS, vec![new_edge(ARL, Car, 1, 0, 0, 0)]),
        (NCR, vec![new_edge(ARL, Car, 1, 0, 0, 0)]),
    ]);
    let paths = get_possible_paths(&g, Home, ARL).unwrap();
    assert_eq!(paths.len(), 2);
    assert_eq!(paths[0].len(), 3);
    assert_eq!(paths[0][0].destination, BAL);
    assert_eq!(paths[1].len(), 2);
    assert_eq!(paths[1][0].destination, WAS);
}

#[test]
fn enumeration_multiplies_parallel_edges() {
    let g = graph_of(vec![
        (Home, vec![new_edge(BAL, Car, 1, 0, 0, 0), new_edge(BAL, Walk, 2, 0, 0, 0)]),
        (
            BAL,
            vec![
                new_edge(ARL, Marc, 1, 0, 0, 0),
                new_edge(ARL, Metro, 1, 0, 0, 0),
                new_edge(ARL, Bikeshare, 1, 0, 0, 0),
            ],
        ),
    ]);
    let paths = get_possible_paths(&g, Home, ARL).unwrap();
    assert_eq!(paths.len(), 6);
    assert_eq!(paths[0][0].transportation, Car);
    assert_eq!(paths[0][1].transportation, Marc);
    assert_eq!(paths[5][0].transportation, Walk);
    assert_eq!(paths[5][1].transportation, Bikeshare);
}

#[test]
fn enumeration_of_sample_network() {
    let g = sample_network();
    let paths = get_possible_paths(&g, Home, ARL).unwrap();
    assert_eq!(paths.len(), 140);
    assert_eq!(paths[0], vec![new_edge(ARL, Car, 85, 0, 2203, 7)]);
    for p in &paths {
        assert!(!p.is_empty());
        assert_eq!(p[p.len() - 1].destination, ARL);
    }
}

#[test]
fn enumeration_reports_missing_vertex() {
    let g = graph_of(vec![(Home, vec![new_edge(BAL, Car, 1, 0, 0, 0)])]);
    assert_eq!(get_possible_paths(&g, Home, ARL), Err(GraphIntegrityError::MissingVertex(BAL)));
}

#[test]
fn enumeration_from_destination_gives_empty_path() {
    let g = sample_network();
    let paths = get_possible_paths(&g, ARL, ARL).unwrap();
    assert_eq!(paths, vec![Vec::<Edge>::new()]);
}

#[test]
fn enumeration_stops_on_cycles() {
    let g = graph_of(vec![
        (Home, vec![new_edge(BAL, Car, 1, 0, 0, 0)]),
        (BAL, vec![new_edge(Home, Car, 1, 0, 0, 0), new_edge(ARL, Car, 1, 0, 0, 0)]),
    ]);
    let paths = get_possible_paths(&g, Home, ARL).unwrap();
    assert_eq!(paths.len(), 1);
    assert_eq!(paths[0].len(), 2);
}

#[test]
fn enumeration_is_repeatable() {
    let g = sample_network();
    let first = get_possible_paths(&g, Home, ARL).unwrap();
    let second = get_possible_paths(&g, Home, ARL).unwrap();
    assert_eq!(first, second);
}

#[test]
fn bike_from_origin_can_be_used_again() {
    let path = vec![
        new_edge(BAL, PersonalBike, 7, 0, 0, -2),
        new_edge(WAS, AmtrakNE, 30, 10, 1200, 0),
        new_edge(ARL, PersonalBike, 40, 0, 0, -5),
    ];
    assert_eq!(calculate(&path, Home), Ok(metrics(87, 1200, -6)));
}

#[test]
fn bike_away_from_origin_is_unavailable() {
    let path = vec![new_edge(WAS, Car, 78, 0, 3330, 0), new_edge(ARL, PersonalBike, 40, 0, 0, -5)];
    assert_eq!(calculate(&path, Home), Err(ConstraintViolation::BikeUnavailable));
}

#[test]
fn bike_forbidden_on_acela() {
    let path = vec![
        new_edge(BAL, PersonalBike, 7, 0, 0, -2),
        new_edge(WAS, AmtrakAcela, 38, 10, 2450, 0),
        new_edge(ARL, Bikeshare, 40, 0, 300, -1),
    ];
    assert_eq!(calculate(&path, Home), Err(ConstraintViolation::BikeForbidden));
}

#[test]
fn acela_without_bike_is_accepted() {
    let path = vec![
        new_edge(BAL, Walk, 18, 0, 0, -7),
        new_edge(WAS, AmtrakAcela, 38, 10, 2450, 0),
        new_edge(ARL, Bikeshare, 40, 0, 300, -1),
    ];
    assert_eq!(calculate(&path, Home), Ok(metrics(106, 2750, -7)));
}

#[test]
fn same_mode_edges_pay_one_fare() {
    let path = vec![
        new_edge(NCR, Metro, 10, 0, 500, 0),
        new_edge(WAS, Metro, 10, 0, 700, 0),
        new_edge(ARL, Metro, 10, 0, 900, 0),
    ];
    assert_eq!(calculate(&path, Home).unwrap().total_cost, 500);
}

#[test]
fn alternating_modes_pay_every_fare() {
    let path = vec![
        new_edge(NCR, Metro, 10, 0, 500, 0),
        new_edge(WAS, Marc, 10, 0, 700, 0),
        new_edge(ARL, Metro, 10, 0, 900, 0),
    ];
    assert_eq!(calculate(&path, Home).unwrap().total_cost, 2100);
}

#[test]
fn first_edge_fare_is_charged() {
    let path = vec![new_edge(BAL, Walk, 18, 0, 150, 0)];
    assert_eq!(calculate(&path, Home).unwrap().total_cost, 150);
}

fn hassle_for_wait(wait: u32) -> i64 {
    let path = vec![new_edge(ARL, Car, 10, wait, 0, 2)];
    calculate(&path, Home).unwrap().total_hassle_units
}

#[test]
fn wait_surcharge_bands() {
    assert_eq!(hassle_for_wait(15), 3);
    assert_eq!(hassle_for_wait(16), 5);
    assert_eq!(hassle_for_wait(0), 2);
    assert_eq!(hassle_for_wait(61), 2);
    assert_eq!(hassle_for_wait(1), 3);
    assert_eq!(hassle_for_wait(60), 5);
}

#[test]
fn empty_path_has_zero_metrics() {
    assert_eq!(calculate(&Vec::new(), Home), Ok(metrics(0, 0, 0)));
}

#[test]
fn violation_messages() {
    assert_eq!(
        ConstraintViolation::BikeUnavailable.message(),
        "Not able to ride personal bike in this path"
    );
    assert_eq!(ConstraintViolation::BikeForbidden.message(), "Not allowed to bring bike on Acela");
}

fn mixed_paths() -> Vec<Vec<Edge>> {
    vec![
        vec![new_edge(ARL, Car, 85, 0, 2203, 7)],
        vec![new_edge(WAS, Car, 78, 0, 3330, 0), new_edge(ARL, PersonalBike, 40, 0, 0, -5)],
        vec![new_edge(BAL, Walk, 18, 0, 0, -7), new_edge(ARL, Bikeshare, 40, 0, 300, -1)],
        vec![
            new_edge(BAL, PersonalBike, 7, 0, 0, -2),
            new_edge(WAS, AmtrakAcela, 38, 10, 2450, 0),
        ],
        vec![new_edge(BAL, Car, 8, 0, 2822, 2), new_edge(ARL, Metro, 60, 20, 100, 4)],
    ]
}

#[test]
fn ranking_keeps_valid_trips_sorted_by_time() {
    let paths = mixed_paths();
    let accepted = accepted_trips(&paths, Home);
    assert_eq!(accepted.len(), 3);
    let ranked = rank_trips(&paths, Home, RankKey::Time);
    let times: Vec<u64> = ranked.iter().map(|t| t.metrics.total_time).collect();
    assert_eq!(times, vec![58, 85, 88]);
    assert_eq!(ranked[0].edges, paths[2]);
    assert_eq!(ranked[1].edges, paths[0]);
    assert_eq!(ranked[2].edges, paths[4]);
    assert_eq!(ranked[2].metrics, metrics(88, 2922, 9));
}

#[test]
fn resorting_keeps_membership() {
    let paths = mixed_paths();
    let ranked = rank_trips(&paths, Home, RankKey::Time);
    let mut by_cost = ranked.clone();
    sort_trips(&mut by_cost, RankKey::Cost);
    let costs: Vec<u64> = by_cost.iter().map(|t| t.metrics.total_cost).collect();
    assert_eq!(costs, vec![300, 2203, 2922]);
    let mut by_hassle = ranked.clone();
    sort_trips(&mut by_hassle, RankKey::Hassle);
    let hassles: Vec<i64> = by_hassle.iter().map(|t| t.metrics.total_hassle_units).collect();
    assert_eq!(hassles, vec![-8, 7, 9]);
    for t in &ranked {
        assert!(by_cost.iter().any(|u| u.edges == t.edges && u.metrics == t.metrics));
        assert!(by_hassle.iter().any(|u| u.edges == t.edges && u.metrics == t.metrics));
    }
}

#[test]
fn sorting_is_stable_on_ties() {
    let paths = vec![
        vec![new_edge(ARL, Car, 10, 0, 100, 0)],
        vec![new_edge(ARL, Walk, 10, 0, 0, 0)],
        vec![new_edge(ARL, Metro, 5, 0, 200, 0)],
    ];
    let ranked = rank_trips(&paths, Home, RankKey::Time);
    assert_eq!(ranked[0].edges, paths[2]);
    assert_eq!(ranked[1].edges, paths[0]);
    assert_eq!(ranked[2].edges, paths[1]);
}

#[test]
fn ranking_nothing_gives_nothing() {
    let paths: Vec<Vec<Edge>> = Vec::new();
    assert!(rank_trips(&paths, Home, RankKey::Cost).is_empty());
}

fn diamond() -> Graph {
    graph_of(vec![
        (Home, vec![new_edge(BAL, Car, 10, 0, 0, 0), new_edge(WAS, Car, 30, 0, 0, 0)]),
        (BAL, vec![new_edge(WAS, Marc, 3, 2, 0, 0), new_edge(ARL, Car, 20, 0, 0, 0)]),
        (WAS, vec![new_edge(ARL, Metro, 5, 2, 0, 0)]),
        (ARL, vec![]),
    ])
}

#[test]
fn search_finds_unique_shortest_path() {
    let g = diamond();
    let st = dijkstra_time(&g, Home, ARL).unwrap();
    assert_eq!(st.time_to(ARL), Some(22));
    let arl = st.label(ARL).unwrap();
    assert_eq!(arl.predecessor, Some(WAS));
    assert_eq!(arl.mode, Some(Metro));
    assert_eq!(arl.wait_time, 4);
    let was = st.label(WAS).unwrap();
    assert_eq!(was.time, 15);
    assert_eq!(was.predecessor, Some(BAL));
    assert_eq!(was.mode, Some(Marc));
    let bal = st.label(BAL).unwrap();
    assert_eq!(bal.time, 10);
    assert_eq!(bal.predecessor, Some(Home));
    let home = st.label(Home).unwrap();
    assert_eq!(home.time, 0);
    assert_eq!(home.predecessor, None);
}

#[test]
fn search_reports_unreachable_target() {
    let g = graph_of(vec![
        (Home, vec![new_edge(BAL, Car, 10, 0, 0, 0)]),
        (BAL, vec![new_edge(Home, Car, 10, 0, 0, 0)]),
        (ARL, vec![]),
    ]);
    let st = dijkstra_time(&g, Home, ARL).unwrap();
    assert_eq!(st.time_to(ARL), None);
    assert_eq!(st.time_to(BAL), Some(10));
    assert_eq!(st.time_to(Home), Some(0));
}

#[test]
fn search_reports_missing_vertex() {
    let g = graph_of(vec![(Home, vec![new_edge(BAL, Car, 10, 0, 0, 0)])]);
    assert!(matches!(dijkstra_time(&g, Home, ARL), Err(GraphIntegrityError::MissingVertex(BAL))));
}

#[test]
fn search_on_sample_network() {
    let g = sample_network();
    let st = dijkstra_time(&g, Home, ARL).unwrap();
    assert_eq!(st.time_to(ARL), Some(85));
}

#[test]
fn search_is_repeatable() {
    let g = sample_network();
    let first = dijkstra_time(&g, Home, ARL).unwrap();
    let second = dijkstra_time(&g, Home, ARL).unwrap();
    assert_eq!(first.labels, second.labels);
}

#[test]
fn enumerated_paths_chain_from_origin() {
    let g = sample_network();
    let paths = get_possible_paths(&g, Home, ARL).unwrap();
    for p in &paths {
        let mut at = Home;
        for e in p {
            let out = g.neighbors(at).unwrap();
            assert!(out.contains(e));
            at = e.destination;
        }
        assert_eq!(at, ARL);
    }
}

#[test]
fn search_reports_missing_origin_vertex() {
    let g = graph_of(vec![(BAL, vec![new_edge(ARL, Car, 1, 0, 0, 0)]), (ARL, vec![])]);
    assert!(matches!(dijkstra_time(&g, Home, ARL), Err(GraphIntegrityError::MissingVertex(Home))));
}

#[test]
fn search_from_target_settles_only_origin() {
    let g = diamond();
    let st = dijkstra_time(&g, Home, Home).unwrap();
    assert_eq!(st.time_to(Home), Some(0));
    assert_eq!(st.time_to(BAL), None);
    assert_eq!(st.time_to(ARL), None);
}

#[test]
fn search_ignores_unreachable_zero_time_cycle() {
    let g = graph_of(vec![
        (Home, vec![]),
        (BAL, vec![new_edge(WAS, Walk, 0, 0, 0, 0), new_edge(ARL, Walk, 1, 0, 0, 0)]),
        (WAS, vec![new_edge(BAL, Walk, 0, 0, 0, 0)]),
        (ARL, vec![]),
    ]);
    let st = dijkstra_time(&g, Home, ARL).unwrap();
    assert_eq!(st.time_to(ARL), None);
    assert_eq!(st.time_to(BAL), None);
    assert_eq!(st.time_to(Home), Some(0));
}

#[test]
fn search_stops_at_target() {
    let g = graph_of(vec![
        (Home, vec![new_edge(BAL, Car, 5, 0, 0, 0), new_edge(WAS, Car, 50, 0, 0, 0)]),
        (BAL, vec![new_edge(ARL, Car, 5, 0, 0, 0)]),
        (WAS, vec![]),
        (ARL, vec![]),
    ]);
    let st = dijkstra_time(&g, Home, ARL).unwrap();
    assert_eq!(st.time_to(ARL), Some(10));
    assert_eq!(st.time_to(WAS), None);
}
