//! The procedure resolver: SID and STAR designators to routes assembled from
//! their legs, and to their terminal points.
use vstd::prelude::*;

use crate::database::{
    resolve_reference, routes_view, segments_view, AirwayDatabase, ResolvedPoint, ResolvedRoute,
    ResolvedRouteSegment, RouteView, SegmentView,
};
use crate::entities::{
    reference_name, ArrivalLeg, DepartureLeg, PointReference, StandardInstrumentArrival,
    StandardInstrumentDeparture,
};
use crate::ordering::{order_route_segments, order_segments, sort_points, sorted_points};
use crate::routes::opt_view;
use crate::text::{matches_name, names_match};

verus! {

/// The segment a leg contributes under a procedure's designator; none when
/// either end does not resolve.
pub open spec fn leg_segment(
    db: AirwayDatabase,
    start: PointReference,
    end: PointReference,
    designator: Seq<char>,
) -> Option<SegmentView> {
    let s = resolve_reference(db, start);
    let e = resolve_reference(db, end);
    if s is Unresolved || e is Unresolved {
        None
    } else {
        Some(SegmentView { start: s, end: e, name: Some(designator), altitude: None, speed: None })
    }
}

pub open spec fn arrival_leg_of(db: AirwayDatabase, star: StandardInstrumentArrival) -> spec_fn(
    ArrivalLeg,
) -> Option<SegmentView> {
    |l: ArrivalLeg|
        if opt_view(l.arrival) == Some(star.identifier@) {
            leg_segment(db, l.start, l.end, star.designator@)
        } else {
            None
        }
}

pub open spec fn departure_leg_of(
    db: AirwayDatabase,
    sid: StandardInstrumentDeparture,
) -> spec_fn(DepartureLeg) -> Option<SegmentView> {
    |l: DepartureLeg|
        if opt_view(l.departure) == Some(sid.identifier@) {
            leg_segment(db, l.start, l.end, sid.designator@)
        } else {
            None
        }
}

/// The route of a STAR: its resolvable legs in walking order, named after it.
pub open spec fn star_route(db: AirwayDatabase, star: StandardInstrumentArrival) -> RouteView {
    RouteView {
        name: star.designator@,
        segments: order_route_segments(db.arrival_legs@.filter_map(arrival_leg_of(db, star))),
    }
}

/// The route of a SID: its resolvable legs in walking order, named after it.
pub open spec fn sid_route(db: AirwayDatabase, sid: StandardInstrumentDeparture) -> RouteView {
    RouteView {
        name: sid.designator@,
        segments: order_route_segments(db.departure_legs@.filter_map(departure_leg_of(db, sid))),
    }
}

/// One route per STAR whose designator matches `name`, in store order.
pub open spec fn lookup_star_routes(db: AirwayDatabase, name: Seq<char>) -> Seq<RouteView> {
    db.stars@.filter_map(
        |s: StandardInstrumentArrival|
            if names_match(s.designator@, name) {
                Some(star_route(db, s))
            } else {
                None
            },
    )
}

/// One route per SID whose designator matches `name`, in store order.
pub open spec fn lookup_sid_routes(db: AirwayDatabase, name: Seq<char>) -> Seq<RouteView> {
    db.sids@.filter_map(
        |s: StandardInstrumentDeparture|
            if names_match(s.designator@, name) {
                Some(sid_route(db, s))
            } else {
                None
            },
    )
}

fn leg_to_segment(
    db: &AirwayDatabase,
    start: &PointReference,
    end: &PointReference,
    designator: &String,
) -> (r: Option<ResolvedRouteSegment>)
    ensures
        r is Some <==> leg_segment(*db, *start, *end, designator@) is Some,
        r is Some ==> r->0@ == leg_segment(*db, *start, *end, designator@)->0,
{
    let s = ResolvedPoint::from_db(start, db);
    let e = ResolvedPoint::from_db(end, db);
    match (&s, &e) {
        (ResolvedPoint::Unresolved, _) => None,
        (_, ResolvedPoint::Unresolved) => None,
        _ => Some(
            ResolvedRouteSegment {
                start: s,
                end: e,
                name: Some(designator.clone()),
                altitude: None,
                speed: None,
            },
        ),
    }
}

fn star_route_exec(db: &AirwayDatabase, star: &StandardInstrumentArrival) -> (r: ResolvedRoute)
    ensures
        r@ == star_route(*db, *star),
{
    let ghost f = arrival_leg_of(*db, *star);
    let mut segments: Vec<ResolvedRouteSegment> = Vec::new();
    let mut i: usize = 0;
    while i < db.arrival_legs.len()
        invariant
            i <= db.arrival_legs@.len(),
            f == arrival_leg_of(*db, *star),
            segments_view(segments@) == db.arrival_legs@.subrange(0, i as int).filter_map(f),
        decreases db.arrival_legs@.len() - i,
    {
        let leg = &db.arrival_legs[i];
        proof {
            assert(db.arrival_legs@.subrange(0, i + 1).drop_last() =~= db.arrival_legs@.subrange(
                0,
                i as int,
            ));
        }
        let belongs = match &leg.arrival {
            Some(id) => *id == star.identifier,
            None => false,
        };
        if belongs {
            match leg_to_segment(db, &leg.start, &leg.end, &star.designator) {
                Some(seg) => {
                    let ghost before = segments@;
                    segments.push(seg);
                    proof {
                        assert(segments_view(segments@) =~= segments_view(before).push(seg@));
                    }
                },
                None => {},
            }
        }
        i = i + 1;
    }
    proof {
        assert(db.arrival_legs@.subrange(0, i as int) =~= db.arrival_legs@);
    }
    ResolvedRoute { segments: order_segments(&segments), name: star.designator.clone() }
}

fn sid_route_exec(db: &AirwayDatabase, sid: &StandardInstrumentDeparture) -> (r: ResolvedRoute)
    ensures
        r@ == sid_route(*db, *sid),
{
    let ghost f = departure_leg_of(*db, *sid);
    let mut segments: Vec<ResolvedRouteSegment> = Vec::new();
    let mut i: usize = 0;
    while i < db.departure_legs.len()
        invariant
            i <= db.departure_legs@.len(),
            f == departure_leg_of(*db, *sid),
            segments_view(segments@) == db.departure_legs@.subrange(0, i as int).filter_map(f),
        decreases db.departure_legs@.len() - i,
    {
        let leg = &db.departure_legs[i];
        proof {
            assert(db.departure_legs@.subrange(0, i + 1).drop_last()
                =~= db.departure_legs@.subrange(0, i as int));
        }
        let belongs = match &leg.departure {
            Some(id) => *id == sid.identifier,
            None => false,
        };
        if belongs {
            match leg_to_segment(db, &leg.start, &leg.end, &sid.designator) {
                Some(seg) => {
                    let ghost before = segments@;
                    segments.push(seg);
                    proof {
                        assert(segments_view(segments@) =~= segments_view(before).push(seg@));
                    }
                },
                None => {},
            }
        }
        i = i + 1;
    }
    proof {
        assert(db.departure_legs@.subrange(0, i as int) =~= db.departure_legs@);
    }
    ResolvedRoute { segments: order_segments(&segments), name: sid.designator.clone() }
}

impl AirwayDatabase {
    /// One route per STAR whose designator matches `name` (trimmed, up to
    /// ASCII case), in store order.
    pub fn resolve_star_routes(&self, name: &str) -> (r: Vec<ResolvedRoute>)
        ensures
            routes_view(r@) == lookup_star_routes(*self, name@),
    {
        let ghost f = |s: StandardInstrumentArrival|
            if names_match(s.designator@, name@) {
                Some(star_route(*self, s))
            } else {
                None
            };
        let mut out: Vec<ResolvedRoute> = Vec::new();
        let mut i: usize = 0;
        while i < self.stars.len()
            invariant
                i <= self.stars@.len(),
                f == (|s: StandardInstrumentArrival|
                    if names_match(s.designator@, name@) {
                        Some(star_route(*self, s))
                    } else {
                        None
                    }),
                routes_view(out@) == self.stars@.subrange(0, i as int).filter_map(f),
            decreases self.stars@.len() - i,
        {
            let star = &self.stars[i];
            proof {
                assert(self.stars@.subrange(0, i + 1).drop_last() =~= self.stars@.subrange(
                    0,
                    i as int,
                ));
            }
            if matches_name(star.designator.as_str(), name) {
                let route = star_route_exec(self, star);
                let ghost before = out@;
                out.push(route);
                proof {
                    assert(routes_view(out@) =~= routes_view(before).push(route@));
                }
            }
            i = i + 1;
        }
        proof {
            assert(self.stars@.subrange(0, i as int) =~= self.stars@);
        }
        out
    }

    /// One route per SID whose designator matches `name` (trimmed, up to
    /// ASCII case), in store order.
    pub fn resolve_sid_routes(&self, name: &str) -> (r: Vec<ResolvedRoute>)
        ensures
            routes_view(r@) == lookup_sid_routes(*self, name@),
    {
        let ghost f = |s: StandardInstrumentDeparture|
            if names_match(s.designator@, name@) {
                Some(sid_route(*self, s))
            } else {
                None
            };
        let mut out: Vec<ResolvedRoute> = Vec::new();
        let mut i: usize = 0;
        while i < self.sids.len()
            invariant
                i <= self.sids@.len(),
                f == (|s: StandardInstrumentDeparture|
                    if names_match(s.designator@, name@) {
                        Some(sid_route(*self, s))
                    } else {
                        None
                    }),
                routes_view(out@) == self.sids@.subrange(0, i as int).filter_map(f),
            decreases self.sids@.len() - i,
        {
            let sid = &self.sids[i];
            proof {
                assert(self.sids@.subrange(0, i + 1).drop_last() =~= self.sids@.subrange(
                    0,
                    i as int,
                ));
            }
            if matches_name(sid.designator.as_str(), name) {
                let route = sid_route_exec(self, sid);
                let ghost before = out@;
                out.push(route);
                proof {
                    assert(routes_view(out@) =~= routes_view(before).push(route@));
                }
            }
            i = i + 1;
        }
        proof {
            assert(self.sids@.subrange(0, i as int) =~= self.sids@);
        }
        out
    }
}

/// A leg as a pair of references.
pub type Leg = (PointReference, PointReference);

pub open spec fn arrival_legs_of(db: AirwayDatabase, star: StandardInstrumentArrival) -> Seq<Leg> {
    db.arrival_legs@.filter_map(
        |l: ArrivalLeg|
            if opt_view(l.arrival) == Some(star.identifier@) {
                Some((l.start, l.end))
            } else {
                None
            },
    )
}

pub open spec fn departure_legs_of(db: AirwayDatabase, sid: StandardInstrumentDeparture) -> Seq<
    Leg,
> {
    db.departure_legs@.filter_map(
        |l: DepartureLeg|
            if opt_view(l.departure) == Some(sid.identifier@) {
                Some((l.start, l.end))
            } else {
                None
            },
    )
}

/// No leg leaves from a point of this name.
pub open spec fn has_no_exit(legs: Seq<Leg>, r: PointReference) -> bool {
    forall|k: int| 0 <= k < legs.len() ==> reference_name(#[trigger] legs[k].0) != reference_name(r)
}

/// The terminal references of a leg graph: the ends of legs from which no leg
/// leaves (in-degree above zero, out-degree zero), in leg order.
pub open spec fn terminal_references(legs: Seq<Leg>) -> Seq<PointReference> {
    legs.filter_map(
        |l: Leg|
            if has_no_exit(legs, l.1) {
                Some(l.1)
            } else {
                None
            },
    )
}

/// The references of a procedure's terminal points: those of its leg graph,
/// or its declared connecting points when it has no leg.
pub open spec fn procedure_terminals(legs: Seq<Leg>, connecting: Seq<PointReference>) -> Seq<
    PointReference,
> {
    if legs.len() > 0 {
        terminal_references(legs)
    } else {
        connecting
    }
}

/// The points of references that are not airports and that resolve.
pub open spec fn resolve_points(db: AirwayDatabase, refs: Seq<PointReference>) -> Seq<
    ResolvedPoint,
> {
    refs.filter_map(
        |r: PointReference|
            if !(r is AirportHeliport) && !(resolve_reference(db, r) is Unresolved) {
                Some(resolve_reference(db, r))
            } else {
                None
            },
    )
}

/// The terminal points of every STAR whose designator matches `name`, in
/// store order.
pub open spec fn star_terminal_points(
    db: AirwayDatabase,
    stars: Seq<StandardInstrumentArrival>,
    name: Seq<char>,
) -> Seq<ResolvedPoint>
    decreases stars.len(),
{
    if stars.len() == 0 {
        Seq::empty()
    } else {
        let st = stars.last();
        star_terminal_points(db, stars.drop_last(), name) + if names_match(st.designator@, name) {
            resolve_points(
                db,
                procedure_terminals(arrival_legs_of(db, st), st.connecting_points@),
            )
        } else {
            Seq::empty()
        }
    }
}

/// The terminal points of every SID whose designator matches `name`, in
/// store order.
pub open spec fn sid_terminal_points(
    db: AirwayDatabase,
    sids: Seq<StandardInstrumentDeparture>,
    name: Seq<char>,
) -> Seq<ResolvedPoint>
    decreases sids.len(),
{
    if sids.len() == 0 {
        Seq::empty()
    } else {
        let sd = sids.last();
        sid_terminal_points(db, sids.drop_last(), name) + if names_match(sd.designator@, name) {
            resolve_points(
                db,
                procedure_terminals(departure_legs_of(db, sd), sd.connecting_points@),
            )
        } else {
            Seq::empty()
        }
    }
}

fn star_legs(db: &AirwayDatabase, star: &StandardInstrumentArrival) -> (r: Vec<Leg>)
    ensures
        r@ == arrival_legs_of(*db, *star),
{
    let ghost f = |l: ArrivalLeg|
        if opt_view(l.arrival) == Some(star.identifier@) {
            Some((l.start, l.end))
        } else {
            None
        };
    let mut out: Vec<Leg> = Vec::new();
    let mut i: usize = 0;
    while i < db.arrival_legs.len()
        invariant
            i <= db.arrival_legs@.len(),
            f == (|l: ArrivalLeg|
                if opt_view(l.arrival) == Some(star.identifier@) {
                    Some((l.start, l.end))
                } else {
                    None
                }),
            out@ == db.arrival_legs@.subrange(0, i as int).filter_map(f),
        decreases db.arrival_legs@.len() - i,
    {
        let leg = &db.arrival_legs[i];
        proof {
            assert(db.arrival_legs@.subrange(0, i + 1).drop_last() =~= db.arrival_legs@.subrange(
                0,
                i as int,
            ));
        }
        let belongs = match &leg.arrival {
            Some(id) => *id == star.identifier,
            None => false,
        };
        if belongs {
            out.push((leg.start.copied(), leg.end.copied()));
        }
        i = i + 1;
    }
    proof {
        assert(db.arrival_legs@.subrange(0, i as int) =~= db.arrival_legs@);
    }
    out
}

fn sid_legs(db: &AirwayDatabase, sid: &StandardInstrumentDeparture) -> (r: Vec<Leg>)
    ensures
        r@ == departure_legs_of(*db, *sid),
{
    let ghost f = |l: DepartureLeg|
        if opt_view(l.departure) == Some(sid.identifier@) {
            Some((l.start, l.end))
        } else {
            None
        };
    let mut out: Vec<Leg> = Vec::new();
    let mut i: usize = 0;
    while i < db.departure_legs.len()
        invariant
            i <= db.departure_legs@.len(),
            f == (|l: DepartureLeg|
                if opt_view(l.departure) == Some(sid.identifier@) {
                    Some((l.start, l.end))
                } else {
                    None
                }),
            out@ == db.departure_legs@.subrange(0, i as int).filter_map(f),
        decreases db.departure_legs@.len() - i,
    {
        let leg = &db.departure_legs[i];
        proof {
            assert(db.departure_legs@.subrange(0, i + 1).drop_last()
                =~= db.departure_legs@.subrange(0, i as int));
        }
        let belongs = match &leg.departure {
            Some(id) => *id == sid.identifier,
            None => false,
        };
        if belongs {
            out.push((leg.start.copied(), leg.end.copied()));
        }
        i = i + 1;
    }
    proof {
        assert(db.departure_legs@.subrange(0, i as int) =~= db.departure_legs@);
    }
    out
}

fn no_exit(legs: &Vec<Leg>, r: &PointReference) -> (b: bool)
    ensures
        b == has_no_exit(legs@, *r),
{
    let name = r.name();
    let mut k: usize = 0;
    while k < legs.len()
        invariant
            k <= legs@.len(),
            name@ == reference_name(*r),
            forall|j: int| 0 <= j < k ==> reference_name(#[trigger] legs@[j].0) != reference_name(*r),
        decreases legs@.len() - k,
    {
        if legs[k].0.name() == name {
            return false;
        }
        k = k + 1;
    }
    true
}

fn terminals_exec(legs: &Vec<Leg>, connecting: &Vec<PointReference>) -> (r: Vec<PointReference>)
    ensures
        r@ == procedure_terminals(legs@, connecting@),
{
    let mut out: Vec<PointReference> = Vec::new();
    if legs.len() == 0 {
        let mut i: usize = 0;
        while i < connecting.len()
            invariant
                i <= connecting@.len(),
                out@ == connecting@.subrange(0, i as int),
            decreases connecting@.len() - i,
        {
            out.push(connecting[i].copied());
            i = i + 1;
            proof {
                assert(out@ =~= connecting@.subrange(0, i as int));
            }
        }
        proof {
            assert(out@ =~= connecting@);
        }
        return out;
    }
    let ghost f = |l: Leg|
        if has_no_exit(legs@, l.1) {
            Some(l.1)
        } else {
            None
        };
    let mut i: usize = 0;
    while i < legs.len()
        invariant
            i <= legs@.len(),
            f == (|l: Leg|
                if has_no_exit(legs@, l.1) {
                    Some(l.1)
                } else {
                    None
                }),
            out@ == legs@.subrange(0, i as int).filter_map(f),
        decreases legs@.len() - i,
    {
        proof {
            assert(legs@.subrange(0, i + 1).drop_last() =~= legs@.subrange(0, i as int));
        }
        if no_exit(legs, &legs[i].1) {
            out.push(legs[i].1.copied());
        }
        i = i + 1;
    }
    proof {
        assert(legs@.subrange(0, i as int) =~= legs@);
    }
    out
}

fn resolve_points_exec(db: &AirwayDatabase, refs: &Vec<PointReference>) -> (r: Vec<ResolvedPoint>)
    ensures
        r@ == resolve_points(*db, refs@),
{
    let ghost f = |r: PointReference|
        if !(r is AirportHeliport) && !(resolve_reference(*db, r) is Unresolved) {
            Some(resolve_reference(*db, r))
        } else {
            None
        };
    let mut out: Vec<ResolvedPoint> = Vec::new();
    let mut i: usize = 0;
    while i < refs.len()
        invariant
            i <= refs@.len(),
            f == (|r: PointReference|
                if !(r is AirportHeliport) && !(resolve_reference(*db, r) is Unresolved) {
                    Some(resolve_reference(*db, r))
                } else {
                    None
                }),
            out@ == refs@.subrange(0, i as int).filter_map(f),
        decreases refs@.len() - i,
    {
        proof {
            assert(refs@.subrange(0, i + 1).drop_last() =~= refs@.subrange(0, i as int));
        }
        if !refs[i].is_airport_heliport() {
            let p = ResolvedPoint::from_db(&refs[i], db);
            match p {
                ResolvedPoint::Unresolved => {},
                _ => {
                    out.push(p);
                },
            }
        }
        i = i + 1;
    }
    proof {
        assert(refs@.subrange(0, i as int) =~= refs@);
    }
    out
}

impl AirwayDatabase {
    /// The terminal points of the STARs whose designator matches `name`:
    /// the leg ends from which no leg leaves (or, for a STAR without legs,
    /// its connecting points), airports left out, unresolvable references
    /// dropped, each point once, in point order.
    pub fn resolve_star_points(&self, name: &str) -> (r: Vec<ResolvedPoint>)
        ensures
            r@ == sort_points(star_terminal_points(*self, self.stars@, name@)),
    {
        let mut raw: Vec<ResolvedPoint> = Vec::new();
        let mut i: usize = 0;
        while i < self.stars.len()
            invariant
                i <= self.stars@.len(),
                raw@ == star_terminal_points(*self, self.stars@.subrange(0, i as int), name@),
            decreases self.stars@.len() - i,
        {
            let star = &self.stars[i];
            proof {
                assert(self.stars@.subrange(0, i + 1).drop_last() =~= self.stars@.subrange(
                    0,
                    i as int,
                ));
                assert(self.stars@.subrange(0, i + 1).last() == *star);
            }
            if matches_name(star.designator.as_str(), name) {
                let legs = star_legs(self, star);
                let refs = terminals_exec(&legs, &star.connecting_points);
                let mut pts = resolve_points_exec(self, &refs);
                raw.append(&mut pts);
            } else {
                proof {
                    assert(raw@ + Seq::<ResolvedPoint>::empty() =~= raw@);
                }
            }
            i = i + 1;
        }
        proof {
            assert(self.stars@.subrange(0, i as int) =~= self.stars@);
        }
        sorted_points(&raw)
    }

    /// The terminal points of the SIDs whose designator matches `name`:
    /// the leg ends from which no leg leaves (or, for a SID without legs,
    /// its connecting points), airports left out, unresolvable references
    /// dropped, each point once, in point order.
    pub fn resolve_sid_points(&self, name: &str) -> (r: Vec<ResolvedPoint>)
        ensures
            r@ == sort_points(sid_terminal_points(*self, self.sids@, name@)),
    {
        let mut raw: Vec<ResolvedPoint> = Vec::new();
        let mut i: usize = 0;
        while i < self.sids.len()
            invariant
                i <= self.sids@.len(),
                raw@ == sid_terminal_points(*self, self.sids@.subrange(0, i as int), name@),
            decreases self.sids@.len() - i,
        {
            let sid = &self.sids[i];
            proof {
                assert(self.sids@.subrange(0, i + 1).drop_last() =~= self.sids@.subrange(
                    0,
                    i as int,
                ));
                assert(self.sids@.subrange(0, i + 1).last() == *sid);
            }
            if matches_name(sid.designator.as_str(), name) {
                let legs = sid_legs(self, sid);
                let refs = terminals_exec(&legs, &sid.connecting_points);
                let mut pts = resolve_points_exec(self, &refs);
                raw.append(&mut pts);
            } else {
                proof {
                    assert(raw@ + Seq::<ResolvedPoint>::empty() =~= raw@);
                }
            }
            i = i + 1;
        }
        proof {
            assert(self.sids@.subrange(0, i as int) =~= self.sids@);
        }
        sorted_points(&raw)
    }
}

} // verus!
