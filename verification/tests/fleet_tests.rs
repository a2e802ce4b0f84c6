use lib::fleet::{
    alive_flags, alive_ids, apply_disruption, census, disruption, link_newcomer, plan_visits, Disruption, Scenario,
    Visit,
};
use lib::venue::VenueState;
use lib::graph::CellGraph;
use lib::rng::Rng;
use std::collections::HashMap;

#[test]
fn scenario_names() {
    assert_eq!(Scenario::NormalOperation.name(), "Normal Operation");
    assert_eq!(Scenario::SuddenChange.name(), "Sudden Change");
    assert_eq!(Scenario::AdversarialInjection.name(), "Adversarial Injection");
    assert_eq!(Scenario::NewVenueJoining.name(), "New Venue Joining");
    assert_eq!(Scenario::VenueDeath.name(), "Venue Death");
}

#[test]
fn schedules() {
    assert_eq!(disruption(Scenario::NormalOperation, 50), Disruption::Quiet);
    assert_eq!(disruption(Scenario::SuddenChange, 50), Disruption::InvertVibes);
    assert_eq!(disruption(Scenario::SuddenChange, 51), Disruption::Quiet);
    assert_eq!(disruption(Scenario::AdversarialInjection, 299), Disruption::Quiet);
    assert_eq!(disruption(Scenario::AdversarialInjection, 300), Disruption::ContrarianPush { first: true });
    assert_eq!(disruption(Scenario::AdversarialInjection, 999), Disruption::ContrarianPush { first: false });
    assert_eq!(disruption(Scenario::NewVenueJoining, 0), Disruption::HoldBackNewcomer);
    assert_eq!(disruption(Scenario::NewVenueJoining, 200), Disruption::AdmitNewcomer);
    assert_eq!(disruption(Scenario::NewVenueJoining, 100), Disruption::Quiet);
    assert_eq!(disruption(Scenario::VenueDeath, 500), Disruption::RemoveHub);
    assert_eq!(disruption(Scenario::VenueDeath, 0), Disruption::Quiet);
}

#[test]
fn newcomer_links_to_drawn_nodes() {
    let mut map: HashMap<usize, Vec<usize>> = HashMap::new();
    let mut rng = Rng::new(42);
    link_newcomer(&mut map, &mut rng, 19, 19, 4);
    let mut expect = Rng::new(42);
    let mut want: Vec<usize> = Vec::new();
    for _ in 0..4 {
        let x = expect.next_usize(19);
        if !want.contains(&x) {
            want.push(x);
        }
    }
    assert_eq!(map.get(&19), Some(&want));
    for x in want {
        assert_eq!(map.get(&x), Some(&vec![19]));
    }
}

#[test]
fn alive_ids_in_order() {
    assert_eq!(alive_ids(&[true, false, true, true]), vec![0, 2, 3]);
    assert!(alive_ids(&[false, false]).is_empty());
}

#[test]
fn visits_follow_the_stream() {
    let alive = [true, false, true];
    let mut rng = Rng::new(42);
    let plan = plan_visits(&mut rng, &alive);
    let mut r = Rng::new(42);
    let count = 1 + r.next_usize(5);
    assert_eq!(count, 5);
    assert_eq!(plan.len(), count);
    for v in &plan {
        let venue = [0usize, 2][r.next_usize(2)];
        let kind = r.next_usize(8);
        let draw = r.next_u64();
        assert_eq!(*v, Visit { venue, kind, vibe_draw: draw });
    }
    assert_eq!(rng.next_u64(), r.next_u64());
}

#[test]
fn no_visit_when_all_dead() {
    let mut rng = Rng::new(42);
    let plan = plan_visits(&mut rng, &[false, false]);
    assert!(plan.is_empty());
    assert_eq!(rng.next_u64(), 11532217803599905471);
}

#[test]
fn census_counts_alive() {
    assert_eq!(census(&[true, false, true], &[3, 100, 4]), (2, 7));
    assert_eq!(census(&[], &[]), (0, 0));
}

#[test]
fn hub_removal_scenario() {
    let mut map: HashMap<usize, Vec<usize>> = HashMap::new();
    for i in 0..4 {
        map.insert(i, Vec::new());
    }
    CellGraph::add_edge(&mut map, 0, 1);
    CellGraph::add_edge(&mut map, 0, 2);
    CellGraph::add_edge(&mut map, 1, 2);
    CellGraph::add_edge(&mut map, 2, 3);
    let mut g = CellGraph { edges: map, node_count: 4 };
    let mut alive = vec![true; 4];
    let hub = g.most_connected(&alive);
    assert_eq!(hub, 2);
    alive[hub] = false;
    g.isolate(hub);
    assert!(!g.is_connected(&alive));
}

#[test]
fn visits_only_alive_venues() {
    let mut rng = Rng::new(99);
    let patterns: [[bool; 6]; 4] = [
        [true, false, false, false, false, true],
        [false, false, true, false, false, false],
        [true; 6],
        [false, true, false, true, false, true],
    ];
    for _ in 0..200 {
        for alive in &patterns {
            let plan = plan_visits(&mut rng, alive);
            assert!(!plan.is_empty() && plan.len() <= 5);
            for v in &plan {
                assert!(alive[v.venue]);
                assert!(v.kind < 8);
            }
        }
    }
}

#[test]
fn newcomer_links_are_symmetric() {
    let mut map: HashMap<usize, Vec<usize>> = HashMap::new();
    let mut rng = Rng::new(3);
    let mut g0 = CellGraph::new_small_world(20, 0, &mut rng);
    g0.isolate(19);
    link_newcomer(&mut g0.edges, &mut rng, 19, 19, 4);
    for x in g0.neighbors(19) {
        assert!(x < 19);
        assert!(g0.neighbors(x).contains(&19));
    }
    assert!(g0.fits_within(20));
    link_newcomer(&mut map, &mut rng, 0, 1, 3);
    assert!(map.get(&0).map_or(true, |v| v.is_empty()));
}

fn threshold_for(p: f64) -> u64 {
    let (mut lo, mut hi) = (0u64, u64::MAX);
    if (hi as f64) / (u64::MAX as f64) < p {
        return u64::MAX;
    }
    while lo < hi {
        let mid = lo + (hi - lo) / 2;
        if (mid as f64) / (u64::MAX as f64) < p {
            lo = mid + 1;
        } else {
            hi = mid;
        }
    }
    lo
}

fn fleet_of(n: usize) -> Vec<VenueState> {
    (0..n).map(|i| VenueState::new(i, "V")).collect()
}

#[test]
fn test_14_topology_connected_after_death() {
    // The discrete course of the venue-death run with seed 42: twenty vibe
    // draws, the small world, then the hub's death at its tick.
    let mut rng = Rng::new(42);
    for _ in 0..20 {
        rng.next_u64();
    }
    let mut graph = CellGraph::new_small_world(20, threshold_for(0.3), &mut rng);
    let mut venues = fleet_of(20);
    for tick in 0..1000 {
        let d = disruption(Scenario::VenueDeath, tick);
        apply_disruption(d, &mut venues, &mut graph, &mut rng);
        let alive = alive_flags(&venues);
        plan_visits(&mut rng, &alive);
    }
    let alive = alive_flags(&venues);
    assert!(alive.iter().filter(|&&a| a).count() < 20, "At least one venue should be dead");
    assert!(graph.is_connected(&alive), "Graph should stay connected after hub death");
}

#[test]
fn test_17_single_venue() {
    let mut venue = VenueState::new(0, "Solo");
    for i in 0..100 {
        venue.record_event(i % 7 == 0);
    }
    assert!(venue.event_count == 100);
}

#[test]
fn alive_flags_follow_venues() {
    let mut venues = fleet_of(3);
    venues[1].alive = false;
    assert_eq!(alive_flags(&venues), vec![true, false, true]);
}

#[test]
fn disruptions_change_flags_and_graph() {
    let mut rng = Rng::new(5);
    let mut graph = CellGraph::new_small_world(20, 0, &mut rng);
    let mut venues = fleet_of(20);
    let before = graph.edges.clone();
    assert_eq!(apply_disruption(Disruption::ContrarianPush { first: false }, &mut venues, &mut graph, &mut rng), None);
    assert!(!venues[0].contrarian);
    apply_disruption(Disruption::ContrarianPush { first: true }, &mut venues, &mut graph, &mut rng);
    assert!(venues[0].contrarian);
    apply_disruption(Disruption::HoldBackNewcomer, &mut venues, &mut graph, &mut rng);
    assert!(!venues[19].alive);
    assert_eq!(graph.edges, before);
    apply_disruption(Disruption::AdmitNewcomer, &mut venues, &mut graph, &mut rng);
    assert!(venues[19].alive);
    let hub = apply_disruption(Disruption::RemoveHub, &mut venues, &mut graph, &mut rng).unwrap();
    assert!(!venues[hub].alive);
    assert!(graph.neighbors(hub).is_empty());
    assert_eq!(venues.iter().filter(|v| !v.alive).count(), 1);
}
