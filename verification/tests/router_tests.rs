use delivery_planner::error::DeliveryFailure;
use delivery_planner::geo::{GeoCoord, StreetSegment};
use delivery_planner::point_router::PointToPointRouter;
use delivery_planner::street_map::StreetMap;

fn pt(i: usize) -> GeoCoord {
    GeoCoord::from(&format!("{}", i), "0")
}

fn index_of(c: &GeoCoord) -> usize {
    c.lat_text().parse().unwrap()
}

fn build(edges: &[(usize, usize, u64)]) -> StreetMap {
    let mut sm = StreetMap::new();
    for (k, &(a, b, len)) in edges.iter().enumerate() {
        sm.add_street(StreetSegment::from(&pt(a), &pt(b), &format!("S{}", k), len, 0));
    }
    sm
}

fn no_estimate(_: &GeoCoord, _: &GeoCoord) -> u64 {
    0
}

/// All shortest distances by repeated relaxation over every edge.
fn brute_force(n: usize, edges: &[(usize, usize, u64)], from: usize) -> Vec<Option<u64>> {
    let mut dist: Vec<Option<u64>> = vec![None; n];
    dist[from] = Some(0);
    for _ in 0..n {
        for &(a, b, len) in edges {
            for (x, y) in [(a, b), (b, a)] {
                if let Some(dx) = dist[x] {
                    if dist[y].map_or(true, |dy| dx + len < dy) {
                        dist[y] = Some(dx + len);
                    }
                }
            }
        }
    }
    dist
}

fn check_chain(route: &[StreetSegment], start: &GeoCoord, end: &GeoCoord, d: u64, sm: &StreetMap) {
    if route.is_empty() {
        assert!(start == end);
        assert_eq!(d, 0);
        return;
    }
    assert!(route[0].start == *start);
    assert!(route[route.len() - 1].end == *end);
    for i in 0..route.len() - 1 {
        assert!(route[i].end == route[i + 1].start);
    }
    for s in route {
        let out = sm.get_segments_from(&s.start).unwrap();
        assert!(out.iter().any(|o| o.end == s.end && o.name == s.name && o.length == s.length));
    }
    assert_eq!(d, route.iter().map(|s| s.length).sum::<u64>());
}

const GRID: [(usize, usize, u64); 10] = [
    (0, 1, 7),
    (0, 2, 9),
    (0, 5, 14),
    (1, 2, 10),
    (1, 3, 15),
    (2, 3, 11),
    (2, 5, 2),
    (3, 4, 6),
    (4, 5, 9),
    (6, 7, 1),
];

#[test]
fn route_over_one_street() {
    let sm = build(&[(0, 1, 69_000_000)]);
    let router = PointToPointRouter::from(&sm);
    let (route, d) = router.generate_route(&pt(0), &pt(1), &no_estimate).unwrap();
    assert_eq!(d, 69_000_000);
    assert_eq!(route.len(), 1);
    assert!(route[0].start == pt(0) && route[0].end == pt(1));
    assert_eq!(route[0].name, "S0");
    let (back, d) = router.generate_route(&pt(1), &pt(0), &no_estimate).unwrap();
    assert_eq!(d, 69_000_000);
    assert_eq!(back.len(), 1);
    assert!(back[0].start == pt(1) && back[0].end == pt(0));
    assert_eq!(back[0].bearing, 180_000);
}

#[test]
fn route_to_itself_is_empty() {
    let sm = build(&GRID);
    let router = PointToPointRouter::from(&sm);
    let (route, d) = router.generate_route(&pt(3), &pt(3), &no_estimate).unwrap();
    assert!(route.is_empty());
    assert_eq!(d, 0);
}

#[test]
fn known_shortest_route() {
    let sm = build(&GRID);
    let router = PointToPointRouter::from(&sm);
    let (route, d) = router.generate_route(&pt(0), &pt(4), &no_estimate).unwrap();
    assert_eq!(d, 20);
    let stops: Vec<usize> = route.iter().map(|s| index_of(&s.end)).collect();
    assert_eq!(stops, vec![2, 5, 4]);
    check_chain(&route, &pt(0), &pt(4), d, &sm);
}

#[test]
fn distances_equal_brute_force_on_every_pair() {
    let sm = build(&GRID);
    let router = PointToPointRouter::from(&sm);
    for a in 0..8 {
        let truth = brute_force(8, &GRID, a);
        for b in 0..8 {
            match router.generate_route(&pt(a), &pt(b), &no_estimate) {
                Ok((route, d)) => {
                    assert_eq!(Some(d), truth[b]);
                    check_chain(&route, &pt(a), &pt(b), d, &sm);
                },
                Err(e) => {
                    assert_eq!(truth[b], None);
                    assert_eq!(e.kind(), DeliveryFailure::NoRoute);
                },
            }
        }
    }
}

#[test]
fn admissible_estimate_gives_the_same_distances() {
    let sm = build(&GRID);
    let router = PointToPointRouter::from(&sm);
    let mut table = Vec::new();
    for a in 0..8 {
        table.push(brute_force(8, &GRID, a));
    }
    let half = |a: &GeoCoord, b: &GeoCoord| table[index_of(a)][index_of(b)].unwrap_or(0) / 2;
    let exact = |a: &GeoCoord, b: &GeoCoord| table[index_of(a)][index_of(b)].unwrap_or(0);
    for a in 0..8 {
        for b in 0..8 {
            let plain = router.generate_route(&pt(a), &pt(b), &no_estimate);
            let halved = router.generate_route(&pt(a), &pt(b), &half);
            let guided = router.generate_route(&pt(a), &pt(b), &exact);
            match plain {
                Ok((_, d)) => {
                    let (r1, d1) = halved.unwrap();
                    let (r2, d2) = guided.unwrap();
                    assert_eq!(d1, d);
                    assert_eq!(d2, d);
                    check_chain(&r1, &pt(a), &pt(b), d1, &sm);
                    check_chain(&r2, &pt(a), &pt(b), d2, &sm);
                },
                Err(_) => {
                    assert!(halved.is_err());
                    assert!(guided.is_err());
                },
            }
        }
    }
}

#[test]
fn overestimate_still_gives_a_route_and_its_length() {
    let sm = build(&GRID);
    let router = PointToPointRouter::from(&sm);
    let wild = |a: &GeoCoord, _: &GeoCoord| if index_of(a) == 2 { u64::MAX } else { 0 };
    let (route, d) = router.generate_route(&pt(0), &pt(4), &wild).unwrap();
    check_chain(&route, &pt(0), &pt(4), d, &sm);
    assert!(d >= 20);
}

#[test]
fn absent_coordinate_is_a_bad_coordinate() {
    let sm = build(&GRID);
    let router = PointToPointRouter::from(&sm);
    let e = router.generate_route(&pt(0), &pt(99), &no_estimate).unwrap_err();
    assert_eq!(e.kind(), DeliveryFailure::BadCoord);
    let e = router.generate_route(&pt(99), &pt(0), &no_estimate).unwrap_err();
    assert_eq!(e.kind(), DeliveryFailure::BadCoord);
    let e = router.generate_route(&pt(98), &pt(99), &no_estimate).unwrap_err();
    assert_eq!(e.kind(), DeliveryFailure::BadCoord);
    let e = router.generate_route(&pt(99), &pt(99), &no_estimate).unwrap_err();
    assert_eq!(e.kind(), DeliveryFailure::BadCoord);
    let e = router
        .generate_route(&GeoCoord::from("0", "0.0"), &pt(0), &no_estimate)
        .unwrap_err();
    assert_eq!(e.kind(), DeliveryFailure::BadCoord);
}

#[test]
fn empty_map_has_only_bad_coordinates() {
    let sm = StreetMap::new();
    let router = PointToPointRouter::from(&sm);
    assert!(!router.on_map(&pt(0)));
    let e = router.generate_route(&pt(0), &pt(0), &no_estimate).unwrap_err();
    assert_eq!(e.kind(), DeliveryFailure::BadCoord);
}

#[test]
fn other_component_has_no_route() {
    let sm = build(&GRID);
    let router = PointToPointRouter::from(&sm);
    assert!(router.on_map(&pt(6)));
    let e = router.generate_route(&pt(0), &pt(6), &no_estimate).unwrap_err();
    assert_eq!(e.kind(), DeliveryFailure::NoRoute);
    let e = router.generate_route(&pt(7), &pt(4), &no_estimate).unwrap_err();
    assert_eq!(e.kind(), DeliveryFailure::NoRoute);
    let (_, d) = router.generate_route(&pt(6), &pt(7), &no_estimate).unwrap();
    assert_eq!(d, 1);
}

#[test]
fn shorter_of_two_streets_between_the_same_ends() {
    let mut sm = StreetMap::new();
    sm.add_street(StreetSegment::from(&pt(0), &pt(1), "Long", 10, 0));
    sm.add_street(StreetSegment::from(&pt(0), &pt(1), "Short", 4, 0));
    sm.add_street(StreetSegment::from(&pt(1), &pt(2), "On", 1, 0));
    let router = PointToPointRouter::from(&sm);
    let (route, d) = router.generate_route(&pt(0), &pt(2), &no_estimate).unwrap();
    assert_eq!(d, 5);
    assert_eq!(route[0].name, "Short");
    assert_eq!(route[1].name, "On");
    let (route, d) = router.generate_route(&pt(2), &pt(0), &no_estimate).unwrap();
    assert_eq!(d, 5);
    assert_eq!(route[1].name, "Short");
}

#[test]
fn streets_of_no_length() {
    let edges = [(0, 1, 0), (1, 2, 0), (2, 0, 0), (2, 3, 5), (3, 3, 0)];
    let sm = build(&edges);
    let router = PointToPointRouter::from(&sm);
    let (route, d) = router.generate_route(&pt(0), &pt(3), &no_estimate).unwrap();
    assert_eq!(d, 5);
    check_chain(&route, &pt(0), &pt(3), d, &sm);
    let (route, d) = router.generate_route(&pt(1), &pt(0), &no_estimate).unwrap();
    assert_eq!(d, 0);
    check_chain(&route, &pt(1), &pt(0), d, &sm);
}

#[test]
fn route_too_long_to_count_is_no_route() {
    let edges = [(0, 1, u64::MAX), (1, 2, 1)];
    let sm = build(&edges);
    let router = PointToPointRouter::from(&sm);
    let (_, d) = router.generate_route(&pt(0), &pt(1), &no_estimate).unwrap();
    assert_eq!(d, u64::MAX);
    let e = router.generate_route(&pt(0), &pt(2), &no_estimate).unwrap_err();
    assert_eq!(e.kind(), DeliveryFailure::NoRoute);
    let (_, d) = router.generate_route(&pt(0), &pt(1), &|_: &GeoCoord, _: &GeoCoord| u64::MAX).unwrap();
    assert_eq!(d, u64::MAX);
}

#[test]
fn same_search_twice_gives_the_same_route() {
    let edges = [(0, 1, 1), (0, 2, 1), (1, 3, 1), (2, 3, 1), (3, 4, 1)];
    let sm = build(&edges);
    let router = PointToPointRouter::from(&sm);
    let (first, d1) = router.generate_route(&pt(0), &pt(4), &no_estimate).unwrap();
    let (second, d2) = router.generate_route(&pt(0), &pt(4), &no_estimate).unwrap();
    assert_eq!(d1, 3);
    assert_eq!(d2, 3);
    let names1: Vec<String> = first.iter().map(|s| s.name.clone()).collect();
    let names2: Vec<String> = second.iter().map(|s| s.name.clone()).collect();
    assert_eq!(names1, names2);
}

#[test]
fn longer_chain_of_streets() {
    let n = 200;
    let mut edges = Vec::new();
    for i in 0..n - 1 {
        edges.push((i, i + 1, (i as u64 % 7) + 1));
    }
    edges.push((0, n - 1, 10_000));
    let sm = build(&edges);
    let router = PointToPointRouter::from(&sm);
    let truth = brute_force(n, &edges, 0);
    let (route, d) = router.generate_route(&pt(0), &pt(n - 1), &no_estimate).unwrap();
    assert_eq!(Some(d), truth[n - 1]);
    assert_eq!(route.len(), n - 1);
    check_chain(&route, &pt(0), &pt(n - 1), d, &sm);
}

#[test]
fn shortest_route_needs_no_estimate() {
    let sm = build(&GRID);
    let router = PointToPointRouter::from(&sm);
    for a in 0..8 {
        let truth = brute_force(8, &GRID, a);
        for b in 0..8 {
            match router.shortest_route(&pt(a), &pt(b)) {
                Ok((route, d)) => {
                    assert_eq!(Some(d), truth[b]);
                    check_chain(&route, &pt(a), &pt(b), d, &sm);
                },
                Err(e) => {
                    assert_eq!(truth[b], None);
                    assert_eq!(e.kind(), DeliveryFailure::NoRoute);
                },
            }
        }
    }
    let e = router.shortest_route(&pt(0), &pt(99)).unwrap_err();
    assert_eq!(e.kind(), DeliveryFailure::BadCoord);
}

#[test]
fn estimate_is_asked_once_for_every_coordinate_reached() {
    let sm = build(&GRID);
    let router = PointToPointRouter::from(&sm);
    let asked = std::cell::RefCell::new(Vec::new());
    let count = |a: &GeoCoord, b: &GeoCoord| {
        assert!(*b == pt(4));
        asked.borrow_mut().push(index_of(a));
        0u64
    };
    let (_, d) = router.generate_route(&pt(0), &pt(4), &count).unwrap();
    assert_eq!(d, 20);
    let mut seen = asked.borrow().clone();
    seen.sort();
    assert_eq!(seen, vec![0, 1, 2, 3, 4, 5]);
}
