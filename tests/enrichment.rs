use geodesy::prelude::{Coor2D, Ellipsoid, Geodesics};
use thrust::database::{AirwayDatabase, ResolvedPoint, ResolvedRouteSegment};
use thrust::enrich::TieBreakQuery;
use thrust::entities::{DesignatedPoint, Navaid, PointReference, Route, RouteSegment};
use thrust::field15::{Altitude, Connector, Field15Element, Modifier, Point, Speed};

const E7: f64 = 1e7;

fn fix(id: &str, designator: &str, lat: f64, lon: f64) -> DesignatedPoint {
    DesignatedPoint {
        identifier: id.to_string(),
        latitude: (lat * E7).round() as i64,
        longitude: (lon * E7).round() as i64,
        designator: designator.to_string(),
        name: None,
        kind: "ICAO".to_string(),
    }
}

fn navaid(id: &str, name: &str, lat: f64, lon: f64) -> Navaid {
    Navaid {
        identifier: id.to_string(),
        name: Some(name.to_string()),
        kind: "VOR".to_string(),
        latitude: (lat * E7).round() as i64,
        longitude: (lon * E7).round() as i64,
    }
}

fn dp(id: &str) -> PointReference {
    PointReference::DesignatedPoint(id.to_string())
}

fn nav(id: &str) -> PointReference {
    PointReference::Navaid(id.to_string())
}

fn route(id: &str, prefix: Option<&str>, second: &str, number: &str) -> Route {
    Route {
        identifier: id.to_string(),
        prefix: prefix.map(|s| s.to_string()),
        second_letter: Some(second.to_string()),
        number: Some(number.to_string()),
        multiple_identifier: None,
    }
}

fn segment(id: &str, route_id: &str, start: PointReference, end: PointReference) -> RouteSegment {
    RouteSegment { identifier: id.to_string(), route_formed: Some(route_id.to_string()), start, end }
}

fn waypoint(name: &str) -> Field15Element {
    Field15Element::Point(Point::Waypoint(name.to_string()))
}

fn coords(lat: f64, lon: f64) -> Field15Element {
    Field15Element::Point(Point::Coordinates((lat * E7).round() as i64, (lon * E7).round() as i64))
}

fn airway(name: &str) -> Field15Element {
    Field15Element::Connector(Connector::Airway(name.to_string()))
}

fn direct() -> Field15Element {
    Field15Element::Connector(Connector::Direct)
}

fn position(p: &ResolvedPoint) -> Coor2D {
    let (lat, lon) = match p {
        ResolvedPoint::AirportHeliport(a) => (a.latitude, a.longitude),
        ResolvedPoint::Navaid(n) => (n.latitude, n.longitude),
        ResolvedPoint::DesignatedPoint(d) => (d.latitude, d.longitude),
        ResolvedPoint::Coordinates { latitude, longitude } => (*latitude, *longitude),
        ResolvedPoint::Unresolved => (0, 0),
    };
    Coor2D::geo(lat as f64 / E7, lon as f64 / E7)
}

fn distance(a: &ResolvedPoint, b: &ResolvedPoint) -> f64 {
    Ellipsoid::named("WGS84").unwrap().distance(&position(a), &position(b))
}

/// Scores by geodesic distance (from the last known point, or along the way
/// between both anchors); the test scenarios need no more.
fn scores(q: &TieBreakQuery) -> Vec<u64> {
    match q {
        TieBreakQuery::Nearest { from, candidates } => {
            candidates.iter().map(|c| distance(from, c).to_bits()).collect()
        }
        TieBreakQuery::Between { from, to, candidates } => candidates
            .iter()
            .map(|c| (distance(from, c) + distance(c, to)).to_bits())
            .collect(),
    }
}

fn enrich(db: &AirwayDatabase, elements: Vec<Field15Element>) -> Vec<ResolvedRouteSegment> {
    let mut e = db.enrich_route(elements);
    while let Some(q) = e.next_query() {
        let s = scores(&q);
        e.answer(&s);
    }
    e.finish()
}

fn id(p: &ResolvedPoint) -> String {
    match p {
        ResolvedPoint::Navaid(n) => n.identifier.clone(),
        ResolvedPoint::DesignatedPoint(d) => d.identifier.clone(),
        ResolvedPoint::AirportHeliport(a) => a.identifier.clone(),
        ResolvedPoint::Coordinates { latitude, longitude } => format!("{latitude},{longitude}"),
        ResolvedPoint::Unresolved => "-".to_string(),
    }
}

fn legs(segments: &[ResolvedRouteSegment]) -> Vec<(String, String)> {
    segments.iter().map(|s| (id(&s.start), id(&s.end))).collect()
}

fn pair(a: &str, b: &str) -> (String, String) {
    (a.to_string(), b.to_string())
}

/// ERNAN - X - DIK - Y along UN857, plus an unrelated route.
fn europe() -> AirwayDatabase {
    let mut db = AirwayDatabase::empty();
    db.designated_points.push(fix("ernan", "ERNAN", 43.0, 1.0));
    db.designated_points.push(fix("x", "XAVIR", 44.0, 2.0));
    db.designated_points.push(fix("y", "YOLKO", 46.0, 4.0));
    db.navaids.push(navaid("dik", "DIK", 45.0, 3.0));
    db.routes.push(route("un857", Some("U"), "N", "857"));
    db.route_segments.push(segment("s1", "un857", dp("ernan"), dp("x")));
    db.route_segments.push(segment("s2", "un857", dp("x"), nav("dik")));
    db.route_segments.push(segment("s3", "un857", nav("dik"), dp("y")));
    db
}

#[test]
fn airway_between_two_points_with_modifier() {
    let db = europe();
    let out = enrich(
        &db,
        vec![
            Field15Element::Modifier(Modifier {
                speed: Some(Speed::Knots(450)),
                altitude: Some(Altitude::FlightLevel(350)),
            }),
            waypoint("ERNAN"),
            airway("UN857"),
            waypoint("DIK"),
        ],
    );
    assert_eq!(legs(&out), vec![pair("ernan", "x"), pair("x", "dik")]);
    for s in &out {
        assert_eq!(s.name.as_deref(), Some("UN857"));
        assert_eq!(s.altitude, Some(Altitude::FlightLevel(350)));
        assert_eq!(s.speed, Some(Speed::Knots(450)));
    }
}

#[test]
fn airway_walked_backwards() {
    let db = europe();
    let out = enrich(&db, vec![waypoint("YOLKO"), airway("UN857"), waypoint("XAVIR")]);
    assert_eq!(legs(&out), vec![pair("y", "dik"), pair("dik", "x")]);
    assert!(out.iter().all(|s| s.name.as_deref() == Some("UN857")));
}

#[test]
fn direct_between_two_waypoints() {
    let db = europe();
    let out = enrich(&db, vec![waypoint("ERNAN"), direct(), waypoint("YOLKO")]);
    assert_eq!(legs(&out), vec![pair("ernan", "y")]);
    assert_eq!(out[0].name, None);
    assert_eq!(out[0].altitude, None);
    assert_eq!(out[0].speed, None);
}

#[test]
fn direct_between_coordinates() {
    let db = AirwayDatabase::empty();
    let out = enrich(&db, vec![coords(46.0, 5.0), direct(), coords(47.0, 6.0)]);
    assert_eq!(out.len(), 1);
    assert_eq!(out[0].start, ResolvedPoint::Coordinates { latitude: 460_000_000, longitude: 50_000_000 });
    assert_eq!(out[0].end, ResolvedPoint::Coordinates { latitude: 470_000_000, longitude: 60_000_000 });
    assert_eq!(out[0].name, None);
    assert_eq!(out[0].altitude, None);
    assert_eq!(out[0].speed, None);
}

#[test]
fn unknown_airway_becomes_direct() {
    let mut db = europe();
    db.designated_points.push(fix("fix1", "FIX1", 40.0, 0.0));
    db.designated_points.push(fix("fix2", "FIX2", 41.0, 0.0));
    let out = enrich(&db, vec![waypoint("FIX1"), airway("UA999"), waypoint("FIX2")]);
    assert_eq!(legs(&out), vec![pair("fix1", "fix2")]);
    assert_eq!(out[0].name, None);
}

#[test]
fn airway_not_through_neighbours_becomes_direct() {
    let mut db = europe();
    db.designated_points.push(fix("fix1", "FIX1", 40.0, 0.0));
    let out = enrich(&db, vec![waypoint("FIX1"), airway("UN857"), waypoint("DIK")]);
    assert_eq!(legs(&out), vec![pair("fix1", "dik")]);
    assert_eq!(out[0].name, None);
}

#[test]
fn ambiguous_point_pruned_by_airway() {
    let mut db = AirwayDatabase::empty();
    db.navaids.push(navaid("amb1", "AMB", 10.0, 10.0));
    db.navaids.push(navaid("amb2", "AMB", 50.0, 50.0));
    db.designated_points.push(fix("brk", "BRK", 51.0, 51.0));
    db.routes.push(route("ul2", Some("U"), "L", "2"));
    db.route_segments.push(segment("s1", "ul2", nav("amb2"), dp("brk")));
    let out = enrich(&db, vec![waypoint("AMB"), airway("UL2"), waypoint("BRK")]);
    assert_eq!(legs(&out), vec![pair("amb2", "brk")]);
    assert_eq!(out[0].name.as_deref(), Some("UL2"));
}

#[test]
fn ambiguous_point_nearest_to_last_known() {
    let mut db = AirwayDatabase::empty();
    db.designated_points.push(fix("fix1", "FIX1", 48.0, 2.0));
    db.designated_points.push(fix("far", "FIX2", -33.0, 151.0));
    db.designated_points.push(fix("near", "FIX2", 49.0, 3.0));
    let out = enrich(&db, vec![waypoint("FIX1"), waypoint("FIX2")]);
    assert_eq!(legs(&out), vec![pair("fix1", "near")]);
}

#[test]
fn ambiguous_point_without_anchor_keeps_first() {
    let mut db = AirwayDatabase::empty();
    db.designated_points.push(fix("far", "FIX2", -33.0, 151.0));
    db.designated_points.push(fix("near", "FIX2", 49.0, 3.0));
    db.designated_points.push(fix("fix3", "FIX3", 50.0, 3.0));
    let mut e = db.enrich_route(vec![waypoint("FIX2"), waypoint("FIX3")]);
    assert!(e.next_query().is_none());
    let out = e.finish();
    assert_eq!(legs(&out), vec![pair("far", "fix3")]);
}

#[test]
fn ambiguous_point_between_two_anchors() {
    let mut db = AirwayDatabase::empty();
    db.designated_points.push(fix("a", "AAA", 0.0, 0.0));
    db.designated_points.push(fix("off", "MID", 30.0, 5.0));
    db.designated_points.push(fix("on", "MID", 0.0, 5.0));
    db.designated_points.push(fix("b", "BBB", 0.0, 10.0));
    let mut e = db.enrich_route(vec![waypoint("AAA"), waypoint("MID"), waypoint("BBB")]);
    match e.next_query() {
        Some(TieBreakQuery::Between { from, to, candidates }) => {
            assert_eq!(id(&from), "a");
            assert_eq!(id(&to), "b");
            assert_eq!(candidates.len(), 2);
        }
        other => panic!("unexpected query {other:?}"),
    }
    e.answer(&vec![7, 3]);
    assert!(e.next_query().is_none());
    assert_eq!(legs(&e.finish()), vec![pair("a", "on"), pair("on", "b")]);
}

#[test]
fn first_best_score_wins() {
    let mut db = AirwayDatabase::empty();
    db.designated_points.push(fix("a", "AAA", 0.0, 0.0));
    db.designated_points.push(fix("m1", "MID", 1.0, 1.0));
    db.designated_points.push(fix("m2", "MID", 2.0, 2.0));
    db.designated_points.push(fix("m3", "MID", 3.0, 3.0));
    let mut e = db.enrich_route(vec![waypoint("AAA"), waypoint("MID")]);
    assert!(matches!(e.next_query(), Some(TieBreakQuery::Nearest { .. })));
    e.answer(&vec![5, 2, 2]);
    assert!(e.next_query().is_none());
    assert_eq!(legs(&e.finish()), vec![pair("a", "m2")]);
}

#[test]
fn modifiers_are_sticky_until_replaced() {
    let db = europe();
    let out = enrich(
        &db,
        vec![
            Field15Element::Modifier(Modifier { speed: Some(Speed::Mach(82)), altitude: Some(Altitude::FlightLevel(370)) }),
            waypoint("ERNAN"),
            direct(),
            waypoint("XAVIR"),
            Field15Element::Modifier(Modifier { speed: Some(Speed::Knots(420)), altitude: None }),
            direct(),
            waypoint("YOLKO"),
        ],
    );
    assert_eq!(legs(&out), vec![pair("ernan", "x"), pair("x", "y")]);
    assert_eq!(out[0].speed, Some(Speed::Mach(82)));
    assert_eq!(out[0].altitude, Some(Altitude::FlightLevel(370)));
    assert_eq!(out[1].speed, Some(Speed::Knots(420)));
    assert_eq!(out[1].altitude, None);
}

#[test]
fn repeated_point_is_skipped_and_legs_connect() {
    let db = europe();
    let out = enrich(
        &db,
        vec![
            waypoint("ERNAN"),
            waypoint("ernan"),
            Field15Element::Other("IFR".to_string()),
            airway("UN857"),
            waypoint("DIK"),
            Field15Element::Connector(Connector::Nat("NATA".to_string())),
            coords(47.0, 6.0),
        ],
    );
    assert_eq!(out.len(), 3);
    for w in out.windows(2) {
        assert_eq!(w[0].end, w[1].start);
    }
    assert_eq!(out[2].name, None);
}

#[test]
fn empty_route_gives_no_segment() {
    let db = europe();
    assert!(enrich(&db, vec![]).is_empty());
    assert!(enrich(&db, vec![waypoint("NOWHERE")]).is_empty());
    assert!(enrich(&db, vec![airway("UN857")]).len() == 3);
}

#[test]
fn enrichment_is_repeatable() {
    let db = europe();
    let tokens = || vec![waypoint("ERNAN"), airway("UN857"), waypoint("YOLKO"), direct(), coords(1.0, 1.0)];
    let a = enrich(&db, tokens());
    let b = enrich(&db, tokens());
    assert_eq!(legs(&a), legs(&b));
    assert_eq!(
        a.iter().map(|s| s.name.clone()).collect::<Vec<_>>(),
        b.iter().map(|s| s.name.clone()).collect::<Vec<_>>()
    );
}
