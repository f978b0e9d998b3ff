use thrust::database::{AirwayDatabase, ResolvedPoint, ResolvedRoute, ResolvedRouteSegment};
use thrust::entities::{
    extract_uuid_href, ArrivalLeg, DesignatedPoint, Navaid, PointReference, Route, RouteSegment,
    StandardInstrumentArrival,
};
use thrust::linearize::order_points_from_legs;
use thrust::ordering::{order_segments, point_precedes, sorted_points};
use thrust::routes::{airway_prefix, decompose_designator};
use thrust::text::matches_name;

fn navaid(id: &str, name: &str, lat: i64, lon: i64) -> Navaid {
    Navaid {
        identifier: id.to_string(),
        name: Some(name.to_string()),
        kind: "VOR".to_string(),
        latitude: lat,
        longitude: lon,
    }
}

fn fix(id: &str, designator: &str, lat: i64, lon: i64) -> DesignatedPoint {
    DesignatedPoint {
        identifier: id.to_string(),
        latitude: lat,
        longitude: lon,
        designator: designator.to_string(),
        name: None,
        kind: "ICAO".to_string(),
    }
}

fn route(id: &str, prefix: Option<&str>, second: &str, number: &str, multiple: Option<&str>) -> Route {
    Route {
        identifier: id.to_string(),
        prefix: prefix.map(|s| s.to_string()),
        second_letter: Some(second.to_string()),
        number: Some(number.to_string()),
        multiple_identifier: multiple.map(|s| s.to_string()),
    }
}

fn segment(id: &str, route_id: &str, start: PointReference, end: PointReference) -> RouteSegment {
    RouteSegment {
        identifier: id.to_string(),
        route_formed: Some(route_id.to_string()),
        start,
        end,
    }
}

fn dp(id: &str) -> PointReference {
    PointReference::DesignatedPoint(id.to_string())
}

fn point_id(p: &ResolvedPoint) -> String {
    match p {
        ResolvedPoint::Navaid(n) => n.identifier.clone(),
        ResolvedPoint::DesignatedPoint(d) => d.identifier.clone(),
        ResolvedPoint::AirportHeliport(a) => a.identifier.clone(),
        ResolvedPoint::Coordinates { latitude, longitude } => format!("{latitude},{longitude}"),
        ResolvedPoint::Unresolved => "-".to_string(),
    }
}

fn plain_segment(start: ResolvedPoint, end: ResolvedPoint) -> ResolvedRouteSegment {
    ResolvedRouteSegment { start, end, name: None, altitude: None, speed: None }
}

#[test]
fn decompose_upper_airway() {
    let d = decompose_designator("UN857");
    assert_eq!(d.prefix.as_deref(), Some("U"));
    assert_eq!(d.second_letter, "N");
    assert_eq!(d.number, "857");
    assert_eq!(d.multiple_identifier, None);
}

#[test]
fn decompose_lower_airway() {
    let d = decompose_designator("N857");
    assert_eq!(d.prefix, None);
    assert_eq!(d.second_letter, "N");
    assert_eq!(d.number, "857");
    assert_eq!(d.multiple_identifier, None);
}

#[test]
fn decompose_with_multiple_identifier() {
    let d = decompose_designator("N857B");
    assert_eq!(d.prefix, None);
    assert_eq!(d.second_letter, "N");
    assert_eq!(d.number, "857");
    assert_eq!(d.multiple_identifier.as_deref(), Some("B"));
}

#[test]
fn decompose_short_upper_airway() {
    let d = decompose_designator("UL2");
    assert_eq!(d.prefix.as_deref(), Some("U"));
    assert_eq!(d.second_letter, "L");
    assert_eq!(d.number, "2");
}

#[test]
fn decompose_too_short() {
    let d = decompose_designator("N");
    assert_eq!(d.prefix, None);
    assert_eq!(d.second_letter, "");
    assert_eq!(d.number, "");
}

#[test]
fn airway_prefixes() {
    for p in ["UN1", "UM1", "UL1", "UT1", "UZ1", "UY1", "UP1", "UA1", "UB1", "UG1", "UH1", "UJ1", "UQ1", "UR1",
        "UV1", "UW1", "L1", "A1", "B1", "G1", "H1", "J1", "Q1", "R1", "T1", "V1", "W1", "Y1", "Z1", "M1",
        "N1", "P357"]
    {
        assert!(airway_prefix(p), "{p}");
    }
    for p in ["K1", "UK1", "U", "", "C12", "X1", "n857"] {
        assert!(!airway_prefix(p), "{p}");
    }
}

#[test]
fn names_match_trimmed_and_folded() {
    assert!(matches_name("  ErNaN\t", "ernan"));
    assert!(matches_name("DIK", " dik "));
    assert!(!matches_name("DIK", "DIKO"));
    assert!(!matches_name("é", "É"));
}

#[test]
fn point_lookup_ignores_space_and_case() {
    let mut db = AirwayDatabase::empty();
    db.designated_points.push(fix("fx1", "ERNAN", 10, 20));
    let a = ResolvedPoint::lookup("ERNAN", &db);
    let b = ResolvedPoint::lookup("  ernan ", &db);
    assert_eq!(a.len(), 1);
    assert_eq!(a, b);
}

#[test]
fn point_lookup_prefers_navaids() {
    let mut db = AirwayDatabase::empty();
    db.designated_points.push(fix("fx1", "DIK", 10, 20));
    db.navaids.push(navaid("n1", "DIK", 30, 40));
    db.navaids.push(navaid("n2", "dik", 50, 60));
    let found = ResolvedPoint::lookup("DIK", &db);
    assert_eq!(found.len(), 2);
    assert_eq!(point_id(&found[0]), "n1");
    assert_eq!(point_id(&found[1]), "n2");
    assert!(ResolvedPoint::lookup("NOPE", &db).is_empty());
}

#[test]
fn point_from_db() {
    let mut db = AirwayDatabase::empty();
    db.designated_points.push(fix("fx1", "ERNAN", 10, 20));
    db.navaids.push(navaid("n1", "DIK", 30, 40));
    assert_eq!(point_id(&ResolvedPoint::from_db(&dp("fx1"), &db)), "fx1");
    assert_eq!(point_id(&ResolvedPoint::from_db(&PointReference::Navaid("n1".to_string()), &db)), "n1");
    assert_eq!(ResolvedPoint::from_db(&dp("n1"), &db), ResolvedPoint::Unresolved);
    assert_eq!(ResolvedPoint::from_db(&PointReference::Unset, &db), ResolvedPoint::Unresolved);
}

#[test]
fn point_equality_is_by_identifier() {
    let a = ResolvedPoint::Navaid(navaid("n1", "DIK", 30, 40));
    let b = ResolvedPoint::Navaid(navaid("n1", "OTHER", 0, 0));
    let c = ResolvedPoint::DesignatedPoint(fix("n1", "DIK", 30, 40));
    assert_eq!(a, b);
    assert_ne!(a, c);
    let p = ResolvedPoint::Coordinates { latitude: 1, longitude: 2 };
    assert_eq!(p, ResolvedPoint::Coordinates { latitude: 1, longitude: 2 });
    assert_ne!(p, ResolvedPoint::Coordinates { latitude: 1, longitude: 3 });
    assert_eq!(ResolvedPoint::Unresolved, ResolvedPoint::Unresolved);
}

fn airway_db() -> AirwayDatabase {
    let mut db = AirwayDatabase::empty();
    db.designated_points.push(fix("a", "AAA", 0, 0));
    db.designated_points.push(fix("b", "BBB", 0, 10_000_000));
    db.designated_points.push(fix("c", "CCC", 0, 20_000_000));
    db.routes.push(route("r1", Some("U"), "N", "857", None));
    db.routes.push(route("r2", None, "N", "857", Some("B")));
    db.route_segments.push(segment("s1", "r1", dp("a"), dp("b")));
    db.route_segments.push(segment("s2", "r1", dp("c"), dp("b")));
    db.route_segments.push(segment("s3", "r2", dp("a"), dp("c")));
    db
}

#[test]
fn route_lookup_by_designator() {
    let db = airway_db();
    let found = ResolvedRoute::lookup("UN857", &db);
    assert_eq!(found.len(), 1);
    assert_eq!(found[0].name, "UN857");
    assert_eq!(found[0].segments.len(), 2);
    let lower = ResolvedRoute::lookup("N857B", &db);
    assert_eq!(lower.len(), 1);
    assert_eq!(lower[0].name, "N857");
    assert_eq!(lower[0].segments.len(), 1);
    assert!(ResolvedRoute::lookup("N857", &db).is_empty());
}

#[test]
fn route_lookup_rejects_unknown_prefixes() {
    let mut db = airway_db();
    db.routes.push(route("r3", None, "K", "12", None));
    assert!(ResolvedRoute::lookup("K12", &db).is_empty());
    assert!(ResolvedRoute::lookup("", &db).is_empty());
}

#[test]
fn route_contains_points() {
    let db = airway_db();
    let r = &ResolvedRoute::lookup("UN857", &db)[0];
    let b = ResolvedPoint::from_db(&dp("b"), &db);
    assert!(r.contains(&b));
    assert!(!r.contains(&ResolvedPoint::Coordinates { latitude: 0, longitude: 0 }));
}

#[test]
fn between_reverses_backward_segments() {
    let db = airway_db();
    let r = &ResolvedRoute::lookup("UN857", &db)[0];
    let a = ResolvedPoint::from_db(&dp("a"), &db);
    let c = ResolvedPoint::from_db(&dp("c"), &db);
    let sub = r.between(&a, &c).unwrap();
    assert_eq!(sub.name, "UN857");
    assert_eq!(sub.segments.len(), 2);
    assert_eq!(point_id(&sub.segments[0].start), "a");
    assert_eq!(point_id(&sub.segments[0].end), "b");
    assert_eq!(sub.segments[0].name, None);
    assert_eq!(point_id(&sub.segments[1].start), "b");
    assert_eq!(point_id(&sub.segments[1].end), "c");
    assert_eq!(sub.segments[1].name.as_deref(), Some("UN857"));
    let back = r.between(&c, &a).unwrap();
    assert_eq!(point_id(&back.segments[0].start), "c");
    assert_eq!(point_id(&back.segments[1].end), "a");
}

#[test]
fn between_same_point_is_empty() {
    let db = airway_db();
    let r = &ResolvedRoute::lookup("UN857", &db)[0];
    let b = ResolvedPoint::from_db(&dp("b"), &db);
    assert_eq!(r.between(&b, &b).unwrap().segments.len(), 0);
}

#[test]
fn between_unreachable_is_none() {
    let db = airway_db();
    let r = &ResolvedRoute::lookup("UN857", &db)[0];
    let a = ResolvedPoint::from_db(&dp("a"), &db);
    let far = ResolvedPoint::Coordinates { latitude: 5, longitude: 5 };
    assert!(r.between(&a, &far).is_none());
}

#[test]
fn between_uses_each_segment_once() {
    // a-b twice in parallel and b-c: from a to a the empty trail is found,
    // from c to a the first trail takes the first a-b segment only.
    let a = ResolvedPoint::DesignatedPoint(fix("a", "A", 0, 0));
    let b = ResolvedPoint::DesignatedPoint(fix("b", "B", 0, 1));
    let c = ResolvedPoint::DesignatedPoint(fix("c", "C", 0, 2));
    let r = ResolvedRoute {
        name: "L1".to_string(),
        segments: vec![
            plain_segment(a.clone(), b.clone()),
            plain_segment(a.clone(), b.clone()),
            plain_segment(b.clone(), c.clone()),
        ],
    };
    let sub = r.between(&c, &a).unwrap();
    assert_eq!(sub.segments.len(), 2);
    assert_eq!(point_id(&sub.segments[0].end), "b");
    assert_eq!(point_id(&sub.segments[1].end), "a");
    // a loop a-b-a through both parallel segments exists but is never needed
    let loop_back = r.between(&b, &b).unwrap();
    assert!(loop_back.segments.is_empty());
}

#[test]
fn uuid_href_prefix_is_stripped() {
    assert_eq!(extract_uuid_href(Some("urn:uuid:1234-ab")).as_deref(), Some("1234-ab"));
    assert_eq!(extract_uuid_href(Some("1234-ab")).as_deref(), Some("1234-ab"));
    assert_eq!(extract_uuid_href(Some("urn:uuid:")).as_deref(), Some(""));
    assert_eq!(extract_uuid_href(None), None);
}

#[test]
fn point_reference_name_and_kind() {
    assert_eq!(dp("x1").name(), "x1");
    assert_eq!(PointReference::Unset.name(), "");
    assert!(PointReference::AirportHeliport("h".to_string()).is_airport_heliport());
    assert!(!dp("x1").is_airport_heliport());
}

fn star_db() -> AirwayDatabase {
    let mut db = AirwayDatabase::empty();
    for id in ["A", "B", "C", "D"] {
        db.designated_points.push(fix(id, id, 0, 0));
    }
    db.stars.push(StandardInstrumentArrival {
        identifier: "star1".to_string(),
        designator: "ABC1A".to_string(),
        airport_heliport: Some("apt".to_string()),
        instruction: None,
        connecting_points: vec![],
    });
    let legs = [("l1", "A", "B"), ("l2", "B", "C"), ("l3", "B", "D")];
    for (id, s, e) in legs {
        db.arrival_legs.push(ArrivalLeg {
            identifier: id.to_string(),
            arrival: Some("star1".to_string()),
            start: dp(s),
            end: dp(e),
        });
    }
    db.arrival_legs.push(ArrivalLeg {
        identifier: "l4".to_string(),
        arrival: Some("star1".to_string()),
        start: dp("D"),
        end: PointReference::AirportHeliport("apt".to_string()),
    });
    db
}

#[test]
fn star_points_are_leg_ends_without_exit() {
    let db = star_db();
    let pts = db.resolve_star_points("abc1a");
    let ids: Vec<String> = pts.iter().map(point_id).collect();
    assert_eq!(ids, vec!["C".to_string()]);
}

#[test]
fn star_points_of_branching_legs() {
    let mut db = star_db();
    db.arrival_legs.pop();
    let pts = db.resolve_star_points("ABC1A");
    let ids: Vec<String> = pts.iter().map(point_id).collect();
    assert_eq!(ids, vec!["C".to_string(), "D".to_string()]);
}

#[test]
fn star_points_fall_back_to_connecting_points() {
    let mut db = star_db();
    db.arrival_legs.clear();
    db.stars[0].connecting_points = vec![dp("B"), dp("A"), dp("B"), PointReference::AirportHeliport("apt".to_string())];
    let ids: Vec<String> = db.resolve_star_points("ABC1A").iter().map(point_id).collect();
    assert_eq!(ids, vec!["A".to_string(), "B".to_string()]);
    assert!(db.resolve_star_points("OTHER").is_empty());
}

#[test]
fn star_routes_are_named_after_the_procedure() {
    let db = star_db();
    let routes = db.resolve_star_routes(" abc1a ");
    assert_eq!(routes.len(), 1);
    assert_eq!(routes[0].name, "ABC1A");
    // the leg to the unresolvable airport is dropped
    assert_eq!(routes[0].segments.len(), 3);
    for s in &routes[0].segments {
        assert_eq!(s.name.as_deref(), Some("ABC1A"));
    }
}

#[test]
fn star_legs_in_walking_order() {
    let mut db = star_db();
    db.arrival_legs.reverse();
    let routes = db.resolve_star_routes("ABC1A");
    let order: Vec<(String, String)> =
        routes[0].segments.iter().map(|s| (point_id(&s.start), point_id(&s.end))).collect();
    let expected = [("A", "B"), ("B", "C"), ("B", "D")];
    assert_eq!(order, expected.iter().map(|(a, b)| (a.to_string(), b.to_string())).collect::<Vec<_>>());
}

#[test]
fn ordering_restarts_on_cycles() {
    let p = |id: &str| ResolvedPoint::DesignatedPoint(fix(id, id, 0, 0));
    let segs = vec![
        plain_segment(p("Y"), p("X")),
        plain_segment(p("X"), p("Y")),
        plain_segment(p("Z"), p("X")),
    ];
    let ordered = order_segments(&segs);
    let ids: Vec<(String, String)> = ordered.iter().map(|s| (point_id(&s.start), point_id(&s.end))).collect();
    let expected = [("Z", "X"), ("X", "Y"), ("Y", "X")];
    assert_eq!(ids, expected.iter().map(|(a, b)| (a.to_string(), b.to_string())).collect::<Vec<_>>());
}

#[test]
fn points_sort_by_kind_then_identifier() {
    let a = ResolvedPoint::Navaid(navaid("b", "B", 0, 0));
    let b = ResolvedPoint::Navaid(navaid("ba", "B", 0, 0));
    let c = ResolvedPoint::DesignatedPoint(fix("a", "A", 0, 0));
    let d = ResolvedPoint::Coordinates { latitude: -5, longitude: 7 };
    assert!(point_precedes(&a, &b));
    assert!(!point_precedes(&b, &a));
    assert!(point_precedes(&b, &c));
    assert!(point_precedes(&c, &d));
    assert!(!point_precedes(&a, &a));
    let sorted = sorted_points(&vec![d.clone(), c.clone(), a.clone(), b.clone(), c.clone()]);
    assert_eq!(sorted, vec![a, b, c, d]);
}

fn leg_names(legs: &[(&str, &str)]) -> Vec<String> {
    let legs: Vec<(PointReference, PointReference)> = legs
        .iter()
        .map(|(a, b)| {
            let r = |s: &str| if s.is_empty() { PointReference::Unset } else { dp(s) };
            (r(a), r(b))
        })
        .collect();
    order_points_from_legs(&legs).iter().map(|r| r.name()).collect()
}

#[test]
fn legs_linearised_topologically() {
    assert_eq!(leg_names(&[("B", "D"), ("A", "B"), ("B", "C")]), vec!["A", "B", "D", "C"]);
    assert_eq!(leg_names(&[("A", "B"), ("B", "C"), ("B", "D")]), vec!["A", "B", "C", "D"]);
}

#[test]
fn legs_on_cycles_close_the_list() {
    assert_eq!(leg_names(&[("X", "Y"), ("Y", "X"), ("Z", "X")]), vec!["Z", "X", "Y"]);
    assert_eq!(leg_names(&[("Q", "P"), ("P", "Q")]), vec!["P", "Q"]);
}

#[test]
fn legs_with_empty_ends_are_skipped() {
    assert_eq!(leg_names(&[("A", ""), ("", "B"), ("C", "D")]), vec!["C", "D"]);
    assert!(leg_names(&[]).is_empty());
}

#[test]
fn linearised_points_keep_first_reference() {
    let legs = vec![
        (PointReference::Navaid("N1".to_string()), dp("F")),
        (dp("N1"), dp("G")),
    ];
    let order = order_points_from_legs(&legs);
    assert_eq!(order.len(), 3);
    assert!(matches!(&order[0], PointReference::Navaid(id) if id == "N1"));
}
