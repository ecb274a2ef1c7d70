use routemap::map::{MalformedRecordError, RouteMap, RouteRecord};
use routemap::registry::{City, CityRegistry};

fn rec(a: &str, b: &str, ferries: u32, tunnel: bool) -> RouteRecord {
    RouteRecord {
        endpoints: [a.to_string(), b.to_string()],
        color: "gray".to_string(),
        length: 3,
        tunnel,
        ferries,
    }
}

fn names(m: &RouteMap) -> Vec<String> {
    m.cities.iter().map(|c| c.name.clone()).collect()
}

#[test]
fn single_route_two_cities() {
    let m = RouteMap::build(&vec![rec("London", "Amsterdam", 1, false)]).unwrap();
    assert_eq!(names(&m), vec!["London".to_string(), "Amsterdam".to_string()]);
    assert_eq!(m.cities[0].route_count, 1);
    assert_eq!(m.cities[1].route_count, 1);
    assert_eq!(m.routes.len(), 1);
    assert_eq!(m.routes[0].ends, [0, 1]);
    assert_eq!(m.routes[0].ferries, 1);
    assert!(!m.routes[0].tunnel);
    let (a, b) = m.route_endpoint_names(0);
    assert_eq!(a, "London");
    assert_eq!(b, "Amsterdam");
}

#[test]
fn self_loop_counts_twice() {
    let m = RouteMap::build(&vec![rec("Paris", "Paris", 0, false)]).unwrap();
    assert_eq!(names(&m), vec!["Paris".to_string()]);
    assert_eq!(m.cities[0].route_count, 2);
    assert_eq!(m.routes.len(), 1);
    assert_eq!(m.routes[0].ends, [0, 0]);
    let (a, b) = m.route_endpoint_names(0);
    assert_eq!(a, "Paris");
    assert_eq!(b, "Paris");
}

#[test]
fn empty_first_endpoint_is_malformed() {
    let r = RouteMap::build(&vec![rec("", "Rome", 0, false)]);
    assert_eq!(r.err(), Some(MalformedRecordError { record: 0, endpoint: 0 }));
}

#[test]
fn empty_second_endpoint_is_malformed() {
    let r = RouteMap::build(&vec![rec("Rome", "Wien", 2, true), rec("Rome", "", 0, false)]);
    assert_eq!(r.err(), Some(MalformedRecordError { record: 1, endpoint: 1 }));
}

#[test]
fn first_fault_is_reported() {
    let r = RouteMap::build(&vec![
        rec("Rome", "Wien", 0, false),
        rec("Kyiv", "", 0, false),
        rec("", "", 0, false),
    ]);
    assert_eq!(r.err(), Some(MalformedRecordError { record: 1, endpoint: 1 }));
}

#[test]
fn shared_endpoint_is_one_city() {
    let m = RouteMap::build(&vec![rec("Berlin", "Warszawa", 0, false), rec("Danzic", "Berlin", 0, false)])
        .unwrap();
    assert_eq!(
        names(&m),
        vec!["Berlin".to_string(), "Warszawa".to_string(), "Danzic".to_string()]
    );
    let berlin = m.find_city(&"Berlin".to_string()).unwrap();
    assert_eq!(berlin, 0);
    assert_eq!(m.cities[berlin].route_count, 2);
    assert_eq!(m.routes[0].ends[0], berlin);
    assert_eq!(m.routes[1].ends[1], berlin);
    assert_eq!(m.cities.iter().filter(|c| c.name == "Berlin").count(), 1);
}

#[test]
fn city_count_is_distinct_names() {
    let m = RouteMap::build(&vec![
        rec("Essen", "Zurich", 0, false),
        rec("Zurich", "Venezia", 0, true),
        rec("Venezia", "Essen", 0, false),
        rec("Lisboa", "Madrid", 0, false),
    ])
    .unwrap();
    assert_eq!(m.cities.len(), 5);
    let counts: Vec<u32> = m.cities.iter().map(|c| c.route_count).collect();
    assert_eq!(counts, vec![2, 2, 2, 1, 1]);
}

#[test]
fn distinct_names_give_two_cities_per_record() {
    let m = RouteMap::build(&vec![rec("Brest", "Dieppe", 0, false), rec("Pamplona", "Cadiz", 0, false)])
        .unwrap();
    assert_eq!(m.cities.len(), 4);
}

#[test]
fn route_count_matches_references() {
    let m = RouteMap::build(&vec![
        rec("Athina", "Athina", 0, false),
        rec("Athina", "Sofia", 1, false),
        rec("Sofia", "Smyrna", 0, true),
    ])
    .unwrap();
    for (k, c) in m.cities.iter().enumerate() {
        let refs = m
            .routes
            .iter()
            .map(|r| r.ends.iter().filter(|&&e| e == k).count())
            .sum::<usize>();
        assert_eq!(c.route_count as usize, refs);
    }
    assert_eq!(m.cities[0].route_count, 3);
}

#[test]
fn routes_keep_input_order() {
    let input = vec![
        rec("Bruxelles", "Paris", 0, false),
        rec("Marseille", "Roma", 2, true),
        rec("Paris", "Marseille", 1, false),
    ];
    let m = RouteMap::build(&input).unwrap();
    assert_eq!(m.routes.len(), 3);
    for (i, r) in input.iter().enumerate() {
        let (a, b) = m.route_endpoint_names(i);
        assert_eq!(a, &r.endpoints[0]);
        assert_eq!(b, &r.endpoints[1]);
        assert_eq!(m.routes[i].ferries, r.ferries);
        assert_eq!(m.routes[i].tunnel, r.tunnel);
    }
}

#[test]
fn empty_input_gives_empty_map() {
    let m = RouteMap::build(&vec![]).unwrap();
    assert!(m.cities.is_empty());
    assert!(m.routes.is_empty());
}

#[test]
fn names_are_case_sensitive() {
    let m = RouteMap::build(&vec![rec("Kobenhavn", "KOBENHAVN", 0, false)]).unwrap();
    assert_eq!(m.cities.len(), 2);
    assert_eq!(m.find_city(&"KOBENHAVN".to_string()), Some(1));
    assert_eq!(m.find_city(&"Stockholm".to_string()), None);
}

#[test]
fn resolve_is_idempotent() {
    let mut reg = CityRegistry::new();
    let a = reg.resolve(&"Riga".to_string());
    assert_eq!(reg.len(), 1);
    let b = reg.resolve(&"Riga".to_string());
    assert_eq!(a, b);
    assert_eq!(reg.len(), 1);
    let c = reg.resolve(&"Stockholm".to_string());
    assert_eq!(c, 1);
    assert_eq!(reg.len(), 2);
    assert_eq!(reg.find(&"Stockholm".to_string()), Some(1));
    assert_eq!(reg.find(&"Petrograd".to_string()), None);
}

#[test]
fn count_route_increments_one_city() {
    let mut reg = CityRegistry::new();
    let a = reg.resolve(&"Bucuresti".to_string());
    let b = reg.resolve(&"Budapest".to_string());
    reg.count_route(b);
    reg.count_route(b);
    let cities = reg.into_cities();
    assert_eq!(cities[a].route_count, 0);
    assert_eq!(cities[b].route_count, 2);
    assert_eq!(cities[b].name, "Budapest");
}

#[test]
fn new_city_has_no_routes() {
    let c = City::new("Frankfurt");
    assert_eq!(c.name, "Frankfurt");
    assert_eq!(c.route_count, 0);
}
