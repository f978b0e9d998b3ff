//! The entity store and the point resolver.
use vstd::prelude::*;

use crate::entities::{
    AirportHeliport, ArrivalLeg, DepartureLeg, DesignatedPoint, Navaid, PointReference, Route,
    RouteSegment, StandardInstrumentArrival, StandardInstrumentDeparture,
};
use crate::field15::{Altitude, Speed};
use crate::text::{copy_opt_string, matches_name, names_match};

verus! {

/// The reference data: one collection per entity kind. Identifiers are
/// expected to be unique within a collection; where one is repeated, the
/// first entity that carries it is the one a reference denotes.
pub struct AirwayDatabase {
    pub airports: Vec<AirportHeliport>,
    pub navaids: Vec<Navaid>,
    pub designated_points: Vec<DesignatedPoint>,
    pub route_segments: Vec<RouteSegment>,
    pub routes: Vec<Route>,
    pub arrival_legs: Vec<ArrivalLeg>,
    pub departure_legs: Vec<DepartureLeg>,
    pub sids: Vec<StandardInstrumentDeparture>,
    pub stars: Vec<StandardInstrumentArrival>,
}

/// A point bound to a concrete position.
#[derive(Debug, Clone)]
pub enum ResolvedPoint {
    AirportHeliport(AirportHeliport),
    Navaid(Navaid),
    DesignatedPoint(DesignatedPoint),
    /// A coordinate literal, in 1e-7 degree.
    Coordinates { latitude: i64, longitude: i64 },
    Unresolved,
}

/// Equality of resolved points: by identifier for entities, by value for
/// coordinates, and `Unresolved` equals itself.
pub open spec fn same_point(a: ResolvedPoint, b: ResolvedPoint) -> bool {
    match (a, b) {
        (ResolvedPoint::AirportHeliport(x), ResolvedPoint::AirportHeliport(y)) => x.identifier@
            == y.identifier@,
        (ResolvedPoint::Navaid(x), ResolvedPoint::Navaid(y)) => x.identifier@ == y.identifier@,
        (ResolvedPoint::DesignatedPoint(x), ResolvedPoint::DesignatedPoint(y)) => x.identifier@
            == y.identifier@,
        (
            ResolvedPoint::Coordinates { latitude: la, longitude: oa },
            ResolvedPoint::Coordinates { latitude: lb, longitude: ob },
        ) => la == lb && oa == ob,
        (ResolvedPoint::Unresolved, ResolvedPoint::Unresolved) => true,
        _ => false,
    }
}

impl PartialEq for ResolvedPoint {
    fn eq(&self, other: &ResolvedPoint) -> (r: bool) {
        match (self, other) {
            (ResolvedPoint::AirportHeliport(x), ResolvedPoint::AirportHeliport(y)) => x.identifier
                == y.identifier,
            (ResolvedPoint::Navaid(x), ResolvedPoint::Navaid(y)) => x.identifier == y.identifier,
            (ResolvedPoint::DesignatedPoint(x), ResolvedPoint::DesignatedPoint(y)) => x.identifier
                == y.identifier,
            (
                ResolvedPoint::Coordinates { latitude: la, longitude: oa },
                ResolvedPoint::Coordinates { latitude: lb, longitude: ob },
            ) => *la == *lb && *oa == *ob,
            (ResolvedPoint::Unresolved, ResolvedPoint::Unresolved) => true,
            _ => false,
        }
    }
}

impl vstd::std_specs::cmp::PartialEqSpecImpl for ResolvedPoint {
    open spec fn obeys_eq_spec() -> bool {
        true
    }

    open spec fn eq_spec(&self, other: &ResolvedPoint) -> bool {
        same_point(*self, *other)
    }
}

impl ResolvedPoint {
    /// An owned copy of the point.
    pub fn copied(&self) -> (r: ResolvedPoint)
        ensures
            r == *self,
    {
        match self {
            ResolvedPoint::AirportHeliport(a) => ResolvedPoint::AirportHeliport(a.copied()),
            ResolvedPoint::Navaid(n) => ResolvedPoint::Navaid(n.copied()),
            ResolvedPoint::DesignatedPoint(d) => ResolvedPoint::DesignatedPoint(d.copied()),
            ResolvedPoint::Coordinates { latitude, longitude } => ResolvedPoint::Coordinates {
                latitude: *latitude,
                longitude: *longitude,
            },
            ResolvedPoint::Unresolved => ResolvedPoint::Unresolved,
        }
    }

    /// Whether two points are the same point.
    pub fn same(&self, other: &ResolvedPoint) -> (r: bool)
        ensures
            r == same_point(*self, *other),
    {
        self.eq(other)
    }
}

/// One edge between two resolved points, with the constraints in force on it.
#[derive(Debug, Clone)]
pub struct ResolvedRouteSegment {
    pub start: ResolvedPoint,
    pub end: ResolvedPoint,
    /// The airway or procedure designator the segment was contributed under.
    pub name: Option<String>,
    pub altitude: Option<Altitude>,
    pub speed: Option<Speed>,
}

/// What a `ResolvedRouteSegment` denotes.
pub struct SegmentView {
    pub start: ResolvedPoint,
    pub end: ResolvedPoint,
    pub name: Option<Seq<char>>,
    pub altitude: Option<Altitude>,
    pub speed: Option<Speed>,
}

impl View for ResolvedRouteSegment {
    type V = SegmentView;

    open spec fn view(&self) -> SegmentView {
        SegmentView {
            start: self.start,
            end: self.end,
            name: match self.name {
                Some(s) => Some(s@),
                None => None,
            },
            altitude: self.altitude,
            speed: self.speed,
        }
    }
}

/// The views of a list of segments.
pub open spec fn segments_view(ss: Seq<ResolvedRouteSegment>) -> Seq<SegmentView> {
    ss.map_values(|s: ResolvedRouteSegment| s@)
}

impl ResolvedRouteSegment {
    pub fn copied(&self) -> (r: ResolvedRouteSegment)
        ensures
            r == *self,
    {
        ResolvedRouteSegment {
            start: self.start.copied(),
            end: self.end.copied(),
            name: copy_opt_string(&self.name),
            altitude: self.altitude,
            speed: self.speed,
        }
    }
}

/// A named, ordered list of segments.
#[derive(Debug, Clone)]
pub struct ResolvedRoute {
    pub segments: Vec<ResolvedRouteSegment>,
    pub name: String,
}

/// What a `ResolvedRoute` denotes.
pub struct RouteView {
    pub name: Seq<char>,
    pub segments: Seq<SegmentView>,
}

impl View for ResolvedRoute {
    type V = RouteView;

    open spec fn view(&self) -> RouteView {
        RouteView { name: self.name@, segments: segments_view(self.segments@) }
    }
}

/// The views of a list of routes.
pub open spec fn routes_view(rs: Seq<ResolvedRoute>) -> Seq<RouteView> {
    rs.map_values(|r: ResolvedRoute| r@)
}

/// Whether some segment of the route starts or ends at `p`.
pub open spec fn route_contains(segments: Seq<SegmentView>, p: ResolvedPoint) -> bool {
    exists|i: int|
        0 <= i < segments.len() && (same_point(#[trigger] segments[i].start, p) || same_point(
            segments[i].end,
            p,
        ))
}

impl ResolvedRoute {
    pub fn copied(&self) -> (r: ResolvedRoute)
        ensures
            r@ == self@,
    {
        let mut segments: Vec<ResolvedRouteSegment> = Vec::new();
        let mut i: usize = 0;
        while i < self.segments.len()
            invariant
                i <= self.segments@.len(),
                segments@ == self.segments@.subrange(0, i as int),
            decreases self.segments@.len() - i,
        {
            segments.push(self.segments[i].copied());
            i = i + 1;
            proof {
                assert(segments@ =~= self.segments@.subrange(0, i as int));
            }
        }
        proof {
            assert(segments@ =~= self.segments@);
        }
        ResolvedRoute { segments, name: self.name.clone() }
    }

    /// Whether some segment of the route starts or ends at `point`.
    pub fn contains(&self, point: &ResolvedPoint) -> (r: bool)
        ensures
            r == route_contains(self@.segments, *point),
    {
        let mut i: usize = 0;
        while i < self.segments.len()
            invariant
                i <= self.segments@.len(),
                forall|j: int|
                    0 <= j < i ==> !same_point(#[trigger] self@.segments[j].start, *point)
                        && !same_point(self@.segments[j].end, *point),
            decreases self.segments@.len() - i,
        {
            if self.segments[i].start.same(point) || self.segments[i].end.same(point) {
                proof {
                    let k = i as int;
                    assert(self@.segments[k] == self.segments@[k]@);
                    assert(self@.segments[k].start == self.segments@[k].start);
                    assert(same_point(self@.segments[k].start, *point) || same_point(
                        self@.segments[k].end,
                        *point,
                    ));
                }
                return true;
            }
            i = i + 1;
        }
        false
    }
}

/// `i` is the first position of `ids` that holds `id`.
pub open spec fn is_first_with(ids: Seq<Seq<char>>, id: Seq<char>, i: int) -> bool {
    0 <= i < ids.len() && ids[i] == id && forall|j: int| 0 <= j < i ==> ids[j] != id
}

/// The first position of `ids` that holds `id`, or -1.
pub open spec fn first_with(ids: Seq<Seq<char>>, id: Seq<char>) -> int {
    if exists|i: int| is_first_with(ids, id, i) {
        choose|i: int| is_first_with(ids, id, i)
    } else {
        -1
    }
}

proof fn lemma_first_with(ids: Seq<Seq<char>>, id: Seq<char>, i: int)
    requires
        0 <= i <= ids.len(),
        forall|j: int| 0 <= j < i ==> ids[j] != id,
    ensures
        i < ids.len() && ids[i] == id ==> first_with(ids, id) == i,
        i == ids.len() ==> first_with(ids, id) == -1,
{
    if i < ids.len() && ids[i] == id {
        assert(is_first_with(ids, id, i));
        let c = choose|c: int| is_first_with(ids, id, c);
        assert(is_first_with(ids, id, c));
        if c < i {
            assert(ids[c] != id);
        }
        if c > i {
            assert(ids[i] != id);
        }
    }
    if i == ids.len() {
        assert(!exists|c: int| is_first_with(ids, id, c));
    }
}

pub open spec fn airport_ids(db: AirwayDatabase) -> Seq<Seq<char>> {
    db.airports@.map_values(|e: AirportHeliport| e.identifier@)
}

pub open spec fn navaid_ids(db: AirwayDatabase) -> Seq<Seq<char>> {
    db.navaids@.map_values(|e: Navaid| e.identifier@)
}

pub open spec fn designated_point_ids(db: AirwayDatabase) -> Seq<Seq<char>> {
    db.designated_points@.map_values(|e: DesignatedPoint| e.identifier@)
}

/// The point a reference denotes in the store.
pub open spec fn resolve_reference(db: AirwayDatabase, r: PointReference) -> ResolvedPoint {
    match r {
        PointReference::AirportHeliport(id) => {
            let k = first_with(airport_ids(db), id@);
            if k >= 0 {
                ResolvedPoint::AirportHeliport(db.airports@[k])
            } else {
                ResolvedPoint::Unresolved
            }
        },
        PointReference::Navaid(id) => {
            let k = first_with(navaid_ids(db), id@);
            if k >= 0 {
                ResolvedPoint::Navaid(db.navaids@[k])
            } else {
                ResolvedPoint::Unresolved
            }
        },
        PointReference::DesignatedPoint(id) => {
            let k = first_with(designated_point_ids(db), id@);
            if k >= 0 {
                ResolvedPoint::DesignatedPoint(db.designated_points@[k])
            } else {
                ResolvedPoint::Unresolved
            }
        },
        PointReference::Unset => ResolvedPoint::Unresolved,
    }
}

/// The navaid of `n`, when its name matches `name`.
pub open spec fn navaid_named(name: Seq<char>) -> spec_fn(Navaid) -> Option<ResolvedPoint> {
    |n: Navaid|
        if n.name is Some && names_match(n.name->0@, name) {
            Some(ResolvedPoint::Navaid(n))
        } else {
            None
        }
}

/// The designated point of `d`, when its designator matches `name`.
pub open spec fn designated_point_named(name: Seq<char>) -> spec_fn(DesignatedPoint) -> Option<
    ResolvedPoint,
> {
    |d: DesignatedPoint|
        if names_match(d.designator@, name) {
            Some(ResolvedPoint::DesignatedPoint(d))
        } else {
            None
        }
}

/// The candidates of a point name: every navaid of that name, or, when there
/// is none, every designated point of that designator.
pub open spec fn lookup_point(db: AirwayDatabase, name: Seq<char>) -> Seq<ResolvedPoint> {
    let navaids = db.navaids@.filter_map(navaid_named(name));
    if navaids.len() > 0 {
        navaids
    } else {
        db.designated_points@.filter_map(designated_point_named(name))
    }
}

impl AirwayDatabase {
    /// A store with no entity.
    pub fn empty() -> (r: AirwayDatabase)
        ensures
            r.airports@.len() == 0,
            r.navaids@.len() == 0,
            r.designated_points@.len() == 0,
            r.route_segments@.len() == 0,
            r.routes@.len() == 0,
            r.arrival_legs@.len() == 0,
            r.departure_legs@.len() == 0,
            r.sids@.len() == 0,
            r.stars@.len() == 0,
    {
        AirwayDatabase {
            airports: Vec::new(),
            navaids: Vec::new(),
            designated_points: Vec::new(),
            route_segments: Vec::new(),
            routes: Vec::new(),
            arrival_legs: Vec::new(),
            departure_legs: Vec::new(),
            sids: Vec::new(),
            stars: Vec::new(),
        }
    }

    fn find_airport(&self, id: &String) -> (r: Option<usize>)
        ensures
            r is Some ==> r->0 == first_with(airport_ids(*self), id@),
            r is None ==> first_with(airport_ids(*self), id@) == -1,
    {
        let ghost ids = airport_ids(*self);
        let mut i: usize = 0;
        while i < self.airports.len()
            invariant
                i <= self.airports@.len(),
                ids == airport_ids(*self),
                forall|j: int| 0 <= j < i ==> ids[j] != id@,
            decreases self.airports@.len() - i,
        {
            if self.airports[i].identifier == *id {
                proof {
                    lemma_first_with(ids, id@, i as int);
                }
                return Some(i);
            }
            i = i + 1;
        }
        proof {
            lemma_first_with(ids, id@, i as int);
        }
        None
    }

    fn find_navaid(&self, id: &String) -> (r: Option<usize>)
        ensures
            r is Some ==> r->0 == first_with(navaid_ids(*self), id@),
            r is None ==> first_with(navaid_ids(*self), id@) == -1,
    {
        let ghost ids = navaid_ids(*self);
        let mut i: usize = 0;
        while i < self.navaids.len()
            invariant
                i <= self.navaids@.len(),
                ids == navaid_ids(*self),
                forall|j: int| 0 <= j < i ==> ids[j] != id@,
            decreases self.navaids@.len() - i,
        {
            if self.navaids[i].identifier == *id {
                proof {
                    lemma_first_with(ids, id@, i as int);
                }
                return Some(i);
            }
            i = i + 1;
        }
        proof {
            lemma_first_with(ids, id@, i as int);
        }
        None
    }

    fn find_designated_point(&self, id: &String) -> (r: Option<usize>)
        ensures
            r is Some ==> r->0 == first_with(designated_point_ids(*self), id@),
            r is None ==> first_with(designated_point_ids(*self), id@) == -1,
    {
        let ghost ids = designated_point_ids(*self);
        let mut i: usize = 0;
        while i < self.designated_points.len()
            invariant
                i <= self.designated_points@.len(),
                ids == designated_point_ids(*self),
                forall|j: int| 0 <= j < i ==> ids[j] != id@,
            decreases self.designated_points@.len() - i,
        {
            if self.designated_points[i].identifier == *id {
                proof {
                    lemma_first_with(ids, id@, i as int);
                }
                return Some(i);
            }
            i = i + 1;
        }
        proof {
            lemma_first_with(ids, id@, i as int);
        }
        None
    }
}

impl ResolvedPoint {
    /// The point `point` denotes in the store, `Unresolved` when its
    /// identifier is absent from the collection its variant names.
    pub fn from_db(point: &PointReference, db: &AirwayDatabase) -> (r: ResolvedPoint)
        ensures
            r == resolve_reference(*db, *point),
    {
        match point {
            PointReference::AirportHeliport(id) => match db.find_airport(id) {
                Some(k) => ResolvedPoint::AirportHeliport(db.airports[k].copied()),
                None => ResolvedPoint::Unresolved,
            },
            PointReference::Navaid(id) => match db.find_navaid(id) {
                Some(k) => ResolvedPoint::Navaid(db.navaids[k].copied()),
                None => ResolvedPoint::Unresolved,
            },
            PointReference::DesignatedPoint(id) => match db.find_designated_point(id) {
                Some(k) => ResolvedPoint::DesignatedPoint(db.designated_points[k].copied()),
                None => ResolvedPoint::Unresolved,
            },
            PointReference::Unset => ResolvedPoint::Unresolved,
        }
    }

    /// The candidate points of a name, in store order: the navaids whose name
    /// matches, or, when there is none, the designated points whose designator
    /// matches. Names match when equal up to ASCII case once trimmed.
    pub fn lookup(name: &str, db: &AirwayDatabase) -> (r: Vec<ResolvedPoint>)
        ensures
            r@ == lookup_point(*db, name@),
    {
        let ghost f = navaid_named(name@);
        let mut out: Vec<ResolvedPoint> = Vec::new();
        let mut i: usize = 0;
        while i < db.navaids.len()
            invariant
                i <= db.navaids@.len(),
                f == navaid_named(name@),
                out@ == db.navaids@.subrange(0, i as int).filter_map(f),
            decreases db.navaids@.len() - i,
        {
            let n = &db.navaids[i];
            proof {
                assert(db.navaids@.subrange(0, i + 1).drop_last() =~= db.navaids@.subrange(
                    0,
                    i as int,
                ));
            }
            match &n.name {
                Some(nm) => {
                    if matches_name(nm.as_str(), name) {
                        out.push(ResolvedPoint::Navaid(n.copied()));
                    }
                },
                None => {},
            }
            i = i + 1;
        }
        proof {
            assert(db.navaids@.subrange(0, i as int) =~= db.navaids@);
        }
        if out.len() > 0 {
            return out;
        }
        let ghost g = designated_point_named(name@);
        let mut i: usize = 0;
        while i < db.designated_points.len()
            invariant
                i <= db.designated_points@.len(),
                g == designated_point_named(name@),
                out@ == db.designated_points@.subrange(0, i as int).filter_map(g),
            decreases db.designated_points@.len() - i,
        {
            let d = &db.designated_points[i];
            proof {
                assert(db.designated_points@.subrange(0, i + 1).drop_last()
                    =~= db.designated_points@.subrange(0, i as int));
            }
            if matches_name(d.designator.as_str(), name) {
                out.push(ResolvedPoint::DesignatedPoint(d.copied()));
            }
            i = i + 1;
        }
        proof {
            assert(db.designated_points@.subrange(0, i as int) =~= db.designated_points@);
        }
        out
    }
}

/// Point resolution looks at a name only once trimmed and up to ASCII case:
/// two names that agree there have the same candidates.
pub proof fn lemma_lookup_ignores_case_and_surrounding_space(
    db: AirwayDatabase,
    a: Seq<char>,
    b: Seq<char>,
)
    requires
        names_match(a, b),
    ensures
        lookup_point(db, a) == lookup_point(db, b),
{
    assert(navaid_named(a) =~= navaid_named(b));
    assert(designated_point_named(a) =~= designated_point_named(b));
}

} // verus!
