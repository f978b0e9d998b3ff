//! The enrichment pipeline: Field 15 tokens to candidates, adjacency pruning,
//! airway trimming, tie-breaking of ambiguous points, and emission of the
//! final segment list.
use vstd::prelude::*;

use crate::database::{
    lookup_point, route_contains, routes_view, same_point, segments_view, AirwayDatabase, ResolvedPoint,
    ResolvedRoute, ResolvedRouteSegment, RouteView, SegmentView,
};
use crate::field15::{Altitude, Connector, Field15Element, Point, Speed};
use crate::path::sub_route;
use crate::procedures::{lookup_sid_routes, lookup_star_routes};
use crate::routes::lookup_route;

verus! {

/// What a token of the route may denote, with the constraints in force there.
#[derive(Debug)]
pub enum EnrichedCandidates {
    /// A named point and its candidate positions.
    Point(Vec<ResolvedPoint>, Option<Altitude>, Option<Speed>),
    /// A coordinate literal.
    PointCoords(ResolvedPoint, Option<Altitude>, Option<Speed>),
    /// An airway or procedure, its candidate routes and its designator.
    Airway(Vec<ResolvedRoute>, String, Option<Altitude>, Option<Speed>),
    /// A direct leg, or a connector that contributes no geometry.
    Direct,
}

/// What an `EnrichedCandidates` denotes.
pub enum CandidateView {
    Point(Seq<ResolvedPoint>, Option<Altitude>, Option<Speed>),
    PointCoords(ResolvedPoint, Option<Altitude>, Option<Speed>),
    Airway(Seq<RouteView>, Seq<char>, Option<Altitude>, Option<Speed>),
    Direct,
}

impl View for EnrichedCandidates {
    type V = CandidateView;

    open spec fn view(&self) -> CandidateView {
        match self {
            EnrichedCandidates::Point(ps, a, s) => CandidateView::Point(ps@, *a, *s),
            EnrichedCandidates::PointCoords(p, a, s) => CandidateView::PointCoords(*p, *a, *s),
            EnrichedCandidates::Airway(rs, n, a, s) => CandidateView::Airway(
                routes_view(rs@),
                n@,
                *a,
                *s,
            ),
            EnrichedCandidates::Direct => CandidateView::Direct,
        }
    }
}

pub open spec fn candidates_view(c: Seq<EnrichedCandidates>) -> Seq<CandidateView> {
    c.map_values(|x: EnrichedCandidates| x@)
}

/// A connector's candidate: its routes, or a direct leg when it has none.
pub open spec fn connector_candidate(
    routes: Seq<RouteView>,
    name: Seq<char>,
    alt: Option<Altitude>,
    spd: Option<Speed>,
) -> CandidateView {
    if routes.len() == 0 {
        CandidateView::Direct
    } else {
        CandidateView::Airway(routes, name, alt, spd)
    }
}

/// The candidates a single token yields, `alt` and `spd` being the
/// constraints in force: none for a modifier or an unknown token.
pub open spec fn token_candidates(
    db: AirwayDatabase,
    e: Field15Element,
    alt: Option<Altitude>,
    spd: Option<Speed>,
) -> Seq<CandidateView> {
    match e {
        Field15Element::Modifier(_) => Seq::empty(),
        Field15Element::Point(Point::Waypoint(n)) => seq![
            CandidateView::Point(lookup_point(db, n@), alt, spd),
        ],
        Field15Element::Point(Point::Coordinates(la, lo)) => seq![
            CandidateView::PointCoords(
                ResolvedPoint::Coordinates { latitude: la, longitude: lo },
                alt,
                spd,
            ),
        ],
        Field15Element::Connector(Connector::Airway(n)) => seq![
            connector_candidate(lookup_route(db, n@), n@, alt, spd),
        ],
        Field15Element::Connector(Connector::Sid(n)) => seq![
            connector_candidate(lookup_sid_routes(db, n@), n@, alt, spd),
        ],
        Field15Element::Connector(Connector::Star(n)) => seq![
            connector_candidate(lookup_star_routes(db, n@), n@, alt, spd),
        ],
        Field15Element::Connector(_) => seq![CandidateView::Direct],
        Field15Element::Other(_) => Seq::empty(),
    }
}

/// The constraints in force after a token: a modifier replaces both.
pub open spec fn constraints_after_token(
    e: Field15Element,
    alt: Option<Altitude>,
    spd: Option<Speed>,
) -> (Option<Altitude>, Option<Speed>) {
    match e {
        Field15Element::Modifier(m) => (m.altitude, m.speed),
        _ => (alt, spd),
    }
}

/// The constraints in force after a token sequence: those of its last
/// modifier, or `(alt, spd)` when it has none.
pub open spec fn constraints_after(
    els: Seq<Field15Element>,
    alt: Option<Altitude>,
    spd: Option<Speed>,
) -> (Option<Altitude>, Option<Speed>)
    decreases els.len(),
{
    if els.len() == 0 {
        (alt, spd)
    } else {
        let n = constraints_after_token(els[0], alt, spd);
        constraints_after(els.drop_first(), n.0, n.1)
    }
}

/// The candidates of a token sequence, with `alt` and `spd` the constraints
/// in force before it.
pub open spec fn build_candidates(
    db: AirwayDatabase,
    els: Seq<Field15Element>,
    alt: Option<Altitude>,
    spd: Option<Speed>,
) -> Seq<CandidateView>
    decreases els.len(),
{
    if els.len() == 0 {
        Seq::empty()
    } else {
        let n = constraints_after_token(els[0], alt, spd);
        token_candidates(db, els[0], alt, spd) + build_candidates(db, els.drop_first(), n.0, n.1)
    }
}

/// The candidate at `j`, or `Direct` outside the sequence.
pub open spec fn neighbour(c: Seq<CandidateView>, j: int) -> CandidateView {
    if 0 <= j < c.len() {
        c[j]
    } else {
        CandidateView::Direct
    }
}

/// Some point of `pts` lies on the route.
pub open spec fn touches_any(r: RouteView, pts: Seq<ResolvedPoint>) -> bool {
    exists|k: int| 0 <= k < pts.len() && route_contains(r.segments, pts[k])
}

pub open spec fn touching(pts: Seq<ResolvedPoint>) -> spec_fn(RouteView) -> bool {
    |r: RouteView| touches_any(r, pts)
}

/// Routes kept next to a neighbouring point: those through one of its
/// candidates. Any other neighbour keeps them all.
pub open spec fn keep_touching(rs: Seq<RouteView>, n: CandidateView) -> Seq<RouteView> {
    match n {
        CandidateView::Point(pts, _, _) => rs.filter(touching(pts)),
        _ => rs,
    }
}

pub open spec fn prune_airway(c: Seq<CandidateView>, i: int) -> CandidateView {
    match c[i] {
        CandidateView::Airway(rs, n, a, s) => CandidateView::Airway(
            keep_touching(keep_touching(rs, neighbour(c, i - 1)), neighbour(c, i + 1)),
            n,
            a,
            s,
        ),
        _ => c[i],
    }
}

/// First pass: airways keep the routes that pass through their neighbouring
/// points.
pub open spec fn prune_airways(c: Seq<CandidateView>) -> Seq<CandidateView> {
    Seq::new(c.len(), |i: int| prune_airway(c, i))
}

pub open spec fn collapse_empty_airway(x: CandidateView) -> CandidateView {
    match x {
        CandidateView::Airway(rs, _, _, _) => if rs.len() == 0 {
            CandidateView::Direct
        } else {
            x
        },
        _ => x,
    }
}

/// Second pass: airways left without a route become direct legs.
pub open spec fn collapse_empty_airways(c: Seq<CandidateView>) -> Seq<CandidateView> {
    c.map_values(|x: CandidateView| collapse_empty_airway(x))
}

/// Some route of `rs` passes through `p`.
pub open spec fn on_any(p: ResolvedPoint, rs: Seq<RouteView>) -> bool {
    exists|k: int| 0 <= k < rs.len() && route_contains(rs[k].segments, p)
}

pub open spec fn lying_on(rs: Seq<RouteView>) -> spec_fn(ResolvedPoint) -> bool {
    |p: ResolvedPoint| on_any(p, rs)
}

/// Points kept next to a neighbouring airway: those on one of its routes.
pub open spec fn keep_on(ps: Seq<ResolvedPoint>, n: CandidateView) -> Seq<ResolvedPoint> {
    match n {
        CandidateView::Airway(rs, _, _, _) => ps.filter(lying_on(rs)),
        _ => ps,
    }
}

pub open spec fn prune_point(c: Seq<CandidateView>, i: int) -> CandidateView {
    match c[i] {
        CandidateView::Point(ps, a, s) => CandidateView::Point(
            keep_on(keep_on(ps, neighbour(c, i - 1)), neighbour(c, i + 1)),
            a,
            s,
        ),
        _ => c[i],
    }
}

/// Third pass: points keep the candidates that lie on their neighbouring
/// airways.
pub open spec fn prune_points(c: Seq<CandidateView>) -> Seq<CandidateView> {
    Seq::new(c.len(), |i: int| prune_point(c, i))
}

/// A route cut down to its sub-route from `s` to `t`, or kept whole when no
/// trail joins them.
pub open spec fn trimmed_route(r: RouteView, s: ResolvedPoint, t: ResolvedPoint) -> RouteView {
    match sub_route(r, s, t) {
        Some(x) => x,
        None => r,
    }
}

pub open spec fn trimming(s: ResolvedPoint, t: ResolvedPoint) -> spec_fn(RouteView) -> RouteView {
    |r: RouteView| trimmed_route(r, s, t)
}

pub open spec fn trim_airway(c: Seq<CandidateView>, i: int) -> CandidateView {
    match (neighbour(c, i - 1), c[i], neighbour(c, i + 1)) {
        (
            CandidateView::Point(ps, _, _),
            CandidateView::Airway(rs, n, a, s),
            CandidateView::Point(qs, _, _),
        ) => if ps.len() > 0 && qs.len() > 0 {
            CandidateView::Airway(
                rs.map_values(trimming(ps[0], qs[0])),
                n,
                a,
                s,
            )
        } else {
            c[i]
        },
        _ => c[i],
    }
}

/// Fourth pass: an airway between two points is trimmed to the part between
/// their first candidates.
pub open spec fn trim_airways(c: Seq<CandidateView>) -> Seq<CandidateView> {
    Seq::new(c.len(), |i: int| trim_airway(c, i))
}

pub open spec fn collapse_unsegmented(x: CandidateView) -> CandidateView {
    match x {
        CandidateView::Airway(rs, _, _, _) => if forall|k: int|
            0 <= k < rs.len() ==> #[trigger] rs[k].segments.len() == 0 {
            CandidateView::Direct
        } else {
            x
        },
        _ => x,
    }
}

/// Fifth pass: airways all of whose routes are empty become direct legs.
pub open spec fn collapse_unsegmented_airways(c: Seq<CandidateView>) -> Seq<CandidateView> {
    c.map_values(|x: CandidateView| collapse_unsegmented(x))
}

/// The candidates of a route after the first five passes.
pub open spec fn prepared(db: AirwayDatabase, els: Seq<Field15Element>) -> Seq<CandidateView> {
    collapse_unsegmented_airways(
        trim_airways(
            prune_points(collapse_empty_airways(prune_airways(build_candidates(db, els, None, None)))),
        ),
    )
}

fn copy_points(v: &Vec<ResolvedPoint>) -> (r: Vec<ResolvedPoint>)
    ensures
        r@ == v@,
{
    let mut out: Vec<ResolvedPoint> = Vec::new();
    let mut i: usize = 0;
    while i < v.len()
        invariant
            i <= v@.len(),
            out@ == v@.subrange(0, i as int),
        decreases v@.len() - i,
    {
        out.push(v[i].copied());
        i = i + 1;
        proof {
            assert(out@ =~= v@.subrange(0, i as int));
        }
    }
    proof {
        assert(out@ =~= v@);
    }
    out
}

fn copy_routes(v: &Vec<ResolvedRoute>) -> (r: Vec<ResolvedRoute>)
    ensures
        routes_view(r@) == routes_view(v@),
{
    let mut out: Vec<ResolvedRoute> = Vec::new();
    let mut i: usize = 0;
    while i < v.len()
        invariant
            i <= v@.len(),
            routes_view(out@) == routes_view(v@.subrange(0, i as int)),
        decreases v@.len() - i,
    {
        let ghost before = out@;
        let c = v[i].copied();
        out.push(c);
        proof {
            assert(routes_view(out@) =~= routes_view(before).push(c@));
            assert(routes_view(v@.subrange(0, i + 1)) =~= routes_view(v@.subrange(0, i as int)).push(
                v@[i as int]@,
            ));
        }
        i = i + 1;
    }
    proof {
        assert(v@.subrange(0, i as int) =~= v@);
    }
    out
}

impl EnrichedCandidates {
    pub fn copied(&self) -> (r: EnrichedCandidates)
        ensures
            r@ == self@,
    {
        match self {
            EnrichedCandidates::Point(ps, a, s) => EnrichedCandidates::Point(copy_points(ps), *a, *s),
            EnrichedCandidates::PointCoords(p, a, s) => EnrichedCandidates::PointCoords(
                p.copied(),
                *a,
                *s,
            ),
            EnrichedCandidates::Airway(rs, n, a, s) => EnrichedCandidates::Airway(
                copy_routes(rs),
                n.clone(),
                *a,
                *s,
            ),
            EnrichedCandidates::Direct => EnrichedCandidates::Direct,
        }
    }
}

fn connector_exec(
    routes: Vec<ResolvedRoute>,
    name: &String,
    alt: Option<Altitude>,
    spd: Option<Speed>,
) -> (r: EnrichedCandidates)
    ensures
        r@ == connector_candidate(routes_view(routes@), name@, alt, spd),
{
    if routes.len() == 0 {
        EnrichedCandidates::Direct
    } else {
        EnrichedCandidates::Airway(routes, name.clone(), alt, spd)
    }
}

impl AirwayDatabase {
    /// The candidates of each token, constraints attached.
    pub fn candidates(&self, elements: &Vec<Field15Element>) -> (r: Vec<EnrichedCandidates>)
        ensures
            candidates_view(r@) == build_candidates(*self, elements@, None, None),
    {
        let ghost els = elements@;
        let n = elements.len();
        let mut out: Vec<EnrichedCandidates> = Vec::new();
        let mut altitude: Option<Altitude> = None;
        let mut speed: Option<Speed> = None;
        let mut i: usize = 0;
        proof {
            assert(els.subrange(0, n as int) =~= els);
            assert(candidates_view(out@) + build_candidates(*self, els, None, None)
                =~= build_candidates(*self, els, None, None));
        }
        while i < n
            invariant
                n == els.len(),
                els == elements@,
                i <= n,
                candidates_view(out@) + build_candidates(
                    *self,
                    els.subrange(i as int, n as int),
                    altitude,
                    speed,
                ) == build_candidates(*self, els, None, None),
            decreases n - i,
        {
            let ghost sub = els.subrange(i as int, n as int);
            let ghost before = out@;
            let ghost alt0 = altitude;
            let ghost spd0 = speed;
            proof {
                assert(sub[0] == els[i as int]);
                assert(sub.drop_first() =~= els.subrange(i + 1, n as int));
            }
            match &elements[i] {
                Field15Element::Modifier(m) => {
                    altitude = m.altitude;
                    speed = m.speed;
                },
                Field15Element::Point(Point::Waypoint(name)) => {
                    let pts = ResolvedPoint::lookup(name.as_str(), self);
                    out.push(EnrichedCandidates::Point(pts, altitude, speed));
                },
                Field15Element::Point(Point::Coordinates(la, lo)) => {
                    out.push(
                        EnrichedCandidates::PointCoords(
                            ResolvedPoint::Coordinates { latitude: *la, longitude: *lo },
                            altitude,
                            speed,
                        ),
                    );
                },
                Field15Element::Connector(Connector::Airway(name)) => {
                    let routes = ResolvedRoute::lookup(name.as_str(), self);
                    out.push(connector_exec(routes, name, altitude, speed));
                },
                Field15Element::Connector(Connector::Sid(name)) => {
                    let routes = self.resolve_sid_routes(name.as_str());
                    out.push(connector_exec(routes, name, altitude, speed));
                },
                Field15Element::Connector(Connector::Star(name)) => {
                    let routes = self.resolve_star_routes(name.as_str());
                    out.push(connector_exec(routes, name, altitude, speed));
                },
                Field15Element::Connector(_) => {
                    out.push(EnrichedCandidates::Direct);
                },
                Field15Element::Other(_) => {},
            }
            proof {
                if out@.len() > before.len() {
                    assert(candidates_view(out@) =~= candidates_view(before) + seq![
                        out@.last()@,
                    ]);
                } else {
                    assert(out@ == before);
                }
                assert(candidates_view(out@) =~= candidates_view(before) + token_candidates(
                    *self,
                    els[i as int],
                    alt0,
                    spd0,
                ));
                assert((altitude, speed) == constraints_after_token(els[i as int], alt0, spd0));
                assert(candidates_view(before) + build_candidates(*self, sub, alt0, spd0) =~= (
                candidates_view(before) + token_candidates(*self, els[i as int], alt0, spd0))
                    + build_candidates(*self, sub.drop_first(), altitude, speed));
            }
            i = i + 1;
        }
        proof {
            assert(els.subrange(n as int, n as int) =~= Seq::<Field15Element>::empty());
            assert(candidates_view(out@) + Seq::<CandidateView>::empty() =~= candidates_view(out@));
        }
        out
    }
}

/// The view of an optional neighbour, `Direct` when there is none.
pub open spec fn opt_candidate(n: Option<&EnrichedCandidates>) -> CandidateView {
    match n {
        Some(x) => x@,
        None => CandidateView::Direct,
    }
}

fn before(c: &Vec<EnrichedCandidates>, i: usize) -> (r: Option<&EnrichedCandidates>)
    requires
        i < c@.len(),
    ensures
        opt_candidate(r) == neighbour(candidates_view(c@), i - 1),
{
    if i > 0 {
        Some(&c[i - 1])
    } else {
        None
    }
}

fn after(c: &Vec<EnrichedCandidates>, i: usize) -> (r: Option<&EnrichedCandidates>)
    requires
        i < c@.len(),
    ensures
        opt_candidate(r) == neighbour(candidates_view(c@), i + 1),
{
    if c.len() - i > 1 {
        Some(&c[i + 1])
    } else {
        None
    }
}

fn touches_any_exec(r: &ResolvedRoute, pts: &Vec<ResolvedPoint>) -> (b: bool)
    ensures
        b == touches_any(r@, pts@),
{
    let mut k: usize = 0;
    while k < pts.len()
        invariant
            k <= pts@.len(),
            forall|j: int| 0 <= j < k ==> !route_contains(r@.segments, #[trigger] pts@[j]),
        decreases pts@.len() - k,
    {
        if r.contains(&pts[k]) {
            return true;
        }
        k = k + 1;
    }
    false
}

fn routes_touching(rs: &Vec<ResolvedRoute>, pts: &Vec<ResolvedPoint>) -> (r: Vec<ResolvedRoute>)
    ensures
        routes_view(r@) == routes_view(rs@).filter(touching(pts@)),
{
    let ghost all = routes_view(rs@);
    let mut out: Vec<ResolvedRoute> = Vec::new();
    let mut i: usize = 0;
    while i < rs.len()
        invariant
            i <= rs@.len(),
            all == routes_view(rs@),
            routes_view(out@) == all.subrange(0, i as int).filter(touching(pts@)),
        decreases rs@.len() - i,
    {
        proof {
            assert(all.subrange(0, i + 1).drop_last() =~= all.subrange(0, i as int));
            assert(all.subrange(0, i + 1).last() == rs@[i as int]@);
        }
        let ghost prev = all.subrange(0, i as int).filter(touching(pts@));
        proof {
            reveal(Seq::filter);
            assert(all.subrange(0, i + 1).filter(touching(pts@)) == if touching(pts@)(rs@[i as int]@) {
                prev.push(rs@[i as int]@)
            } else {
                prev
            });
        }
        if touches_any_exec(&rs[i], pts) {
            let ghost before = out@;
            let c = rs[i].copied();
            out.push(c);
            proof {
                assert(routes_view(out@) =~= routes_view(before).push(c@));
            }
        }
        i = i + 1;
    }
    proof {
        assert(all.subrange(0, i as int) =~= all);
    }
    out
}

fn keep_touching_exec(rs: Vec<ResolvedRoute>, n: Option<&EnrichedCandidates>) -> (r: Vec<
    ResolvedRoute,
>)
    ensures
        routes_view(r@) == keep_touching(routes_view(rs@), opt_candidate(n)),
{
    match n {
        Some(EnrichedCandidates::Point(pts, _, _)) => routes_touching(&rs, pts),
        _ => rs,
    }
}

fn on_any_exec(p: &ResolvedPoint, rs: &Vec<ResolvedRoute>) -> (b: bool)
    ensures
        b == on_any(*p, routes_view(rs@)),
{
    let mut k: usize = 0;
    while k < rs.len()
        invariant
            k <= rs@.len(),
            forall|j: int|
                0 <= j < k ==> !route_contains(#[trigger] routes_view(rs@)[j].segments, *p),
        decreases rs@.len() - k,
    {
        if rs[k].contains(p) {
            proof {
                assert(routes_view(rs@)[k as int] == rs@[k as int]@);
            }
            return true;
        }
        k = k + 1;
    }
    false
}

fn points_on(ps: &Vec<ResolvedPoint>, rs: &Vec<ResolvedRoute>) -> (r: Vec<ResolvedPoint>)
    ensures
        r@ == ps@.filter(lying_on(routes_view(rs@))),
{
    let ghost f = lying_on(routes_view(rs@));
    let mut out: Vec<ResolvedPoint> = Vec::new();
    let mut i: usize = 0;
    while i < ps.len()
        invariant
            i <= ps@.len(),
            f == lying_on(routes_view(rs@)),
            out@ == ps@.subrange(0, i as int).filter(f),
        decreases ps@.len() - i,
    {
        proof {
            assert(ps@.subrange(0, i + 1).drop_last() =~= ps@.subrange(0, i as int));
        }
        let ghost prev = ps@.subrange(0, i as int).filter(f);
        proof {
            reveal(Seq::filter);
            assert(ps@.subrange(0, i + 1).last() == ps@[i as int]);
            assert(ps@.subrange(0, i + 1).filter(f) == if f(ps@[i as int]) {
                prev.push(ps@[i as int])
            } else {
                prev
            });
        }
        if on_any_exec(&ps[i], rs) {
            out.push(ps[i].copied());
        }
        i = i + 1;
    }
    proof {
        assert(ps@.subrange(0, i as int) =~= ps@);
    }
    out
}

fn keep_on_exec(ps: Vec<ResolvedPoint>, n: Option<&EnrichedCandidates>) -> (r: Vec<ResolvedPoint>)
    ensures
        r@ == keep_on(ps@, opt_candidate(n)),
{
    match n {
        Some(EnrichedCandidates::Airway(rs, _, _, _)) => points_on(&ps, rs),
        _ => ps,
    }
}

/// First pass: airways keep the routes through a candidate of each
/// neighbouring point.
pub fn prune_airways_exec(c: &Vec<EnrichedCandidates>) -> (r: Vec<EnrichedCandidates>)
    ensures
        candidates_view(r@) == prune_airways(candidates_view(c@)),
{
    let ghost cv = candidates_view(c@);
    let mut out: Vec<EnrichedCandidates> = Vec::new();
    let mut i: usize = 0;
    while i < c.len()
        invariant
            i <= c@.len(),
            cv == candidates_view(c@),
            out@.len() == i,
            forall|k: int| 0 <= k < i ==> (#[trigger] out@[k])@ == prune_airway(cv, k),
        decreases c@.len() - i,
    {
        let next = match &c[i] {
            EnrichedCandidates::Airway(rs, n, a, s) => {
                let r1 = keep_touching_exec(copy_routes(rs), before(c, i));
                let r2 = keep_touching_exec(r1, after(c, i));
                EnrichedCandidates::Airway(r2, n.clone(), *a, *s)
            },
            other => other.copied(),
        };
        out.push(next);
        i = i + 1;
    }
    proof {
        assert(candidates_view(out@) =~= prune_airways(cv));
    }
    out
}

/// Second pass: airways without a route become direct legs.
pub fn collapse_empty_airways_exec(c: &Vec<EnrichedCandidates>) -> (r: Vec<EnrichedCandidates>)
    ensures
        candidates_view(r@) == collapse_empty_airways(candidates_view(c@)),
{
    let ghost cv = candidates_view(c@);
    let mut out: Vec<EnrichedCandidates> = Vec::new();
    let mut i: usize = 0;
    while i < c.len()
        invariant
            i <= c@.len(),
            cv == candidates_view(c@),
            out@.len() == i,
            forall|k: int| 0 <= k < i ==> (#[trigger] out@[k])@ == collapse_empty_airway(cv[k]),
        decreases c@.len() - i,
    {
        let next = match &c[i] {
            EnrichedCandidates::Airway(rs, _, _, _) => if rs.len() == 0 {
                EnrichedCandidates::Direct
            } else {
                c[i].copied()
            },
            other => other.copied(),
        };
        out.push(next);
        i = i + 1;
    }
    proof {
        assert(candidates_view(out@) =~= collapse_empty_airways(cv));
    }
    out
}

/// Third pass: points keep the candidates on a route of each neighbouring
/// airway.
pub fn prune_points_exec(c: &Vec<EnrichedCandidates>) -> (r: Vec<EnrichedCandidates>)
    ensures
        candidates_view(r@) == prune_points(candidates_view(c@)),
{
    let ghost cv = candidates_view(c@);
    let mut out: Vec<EnrichedCandidates> = Vec::new();
    let mut i: usize = 0;
    while i < c.len()
        invariant
            i <= c@.len(),
            cv == candidates_view(c@),
            out@.len() == i,
            forall|k: int| 0 <= k < i ==> (#[trigger] out@[k])@ == prune_point(cv, k),
        decreases c@.len() - i,
    {
        let next = match &c[i] {
            EnrichedCandidates::Point(ps, a, s) => {
                let on_before = keep_on_exec(copy_points(ps), before(c, i));
                let on_both = keep_on_exec(on_before, after(c, i));
                EnrichedCandidates::Point(on_both, *a, *s)
            },
            other => other.copied(),
        };
        out.push(next);
        i = i + 1;
    }
    proof {
        assert(candidates_view(out@) =~= prune_points(cv));
    }
    out
}

fn trim_routes(rs: &Vec<ResolvedRoute>, s: &ResolvedPoint, t: &ResolvedPoint) -> (r: Vec<
    ResolvedRoute,
>)
    ensures
        routes_view(r@) == routes_view(rs@).map_values(trimming(*s, *t)),
{
    let mut out: Vec<ResolvedRoute> = Vec::new();
    let mut i: usize = 0;
    while i < rs.len()
        invariant
            i <= rs@.len(),
            out@.len() == i,
            forall|k: int|
                0 <= k < i ==> (#[trigger] out@[k])@ == trimmed_route(rs@[k]@, *s, *t),
        decreases rs@.len() - i,
    {
        let next = match rs[i].between(s, t) {
            Some(sub) => sub,
            None => rs[i].copied(),
        };
        out.push(next);
        i = i + 1;
    }
    proof {
        assert(routes_view(out@) =~= routes_view(rs@).map_values(trimming(*s, *t)));
    }
    out
}

/// Fourth pass: an airway between two points is trimmed to the sub-route
/// between their first candidates.
pub fn trim_airways_exec(c: &Vec<EnrichedCandidates>) -> (r: Vec<EnrichedCandidates>)
    ensures
        candidates_view(r@) == trim_airways(candidates_view(c@)),
{
    let ghost cv = candidates_view(c@);
    let mut out: Vec<EnrichedCandidates> = Vec::new();
    let mut i: usize = 0;
    while i < c.len()
        invariant
            i <= c@.len(),
            cv == candidates_view(c@),
            out@.len() == i,
            forall|k: int| 0 <= k < i ==> (#[trigger] out@[k])@ == trim_airway(cv, k),
        decreases c@.len() - i,
    {
        let next = match (before(c, i), &c[i], after(c, i)) {
            (
                Some(EnrichedCandidates::Point(ps, _, _)),
                EnrichedCandidates::Airway(rs, n, a, s),
                Some(EnrichedCandidates::Point(qs, _, _)),
            ) => if ps.len() > 0 && qs.len() > 0 {
                EnrichedCandidates::Airway(trim_routes(rs, &ps[0], &qs[0]), n.clone(), *a, *s)
            } else {
                c[i].copied()
            },
            _ => c[i].copied(),
        };
        out.push(next);
        i = i + 1;
    }
    proof {
        assert(candidates_view(out@) =~= trim_airways(cv));
    }
    out
}

fn all_unsegmented(rs: &Vec<ResolvedRoute>) -> (b: bool)
    ensures
        b == forall|k: int|
            0 <= k < routes_view(rs@).len() ==> #[trigger] routes_view(rs@)[k].segments.len() == 0,
{
    let mut k: usize = 0;
    while k < rs.len()
        invariant
            k <= rs@.len(),
            forall|j: int| 0 <= j < k ==> #[trigger] routes_view(rs@)[j].segments.len() == 0,
        decreases rs@.len() - k,
    {
        if rs[k].segments.len() != 0 {
            proof {
                assert(routes_view(rs@)[k as int].segments.len() != 0);
            }
            return false;
        }
        proof {
            assert(routes_view(rs@)[k as int].segments.len() == 0);
        }
        k = k + 1;
    }
    true
}

/// Fifth pass: airways all of whose routes are empty become direct legs.
pub fn collapse_unsegmented_exec(c: &Vec<EnrichedCandidates>) -> (r: Vec<EnrichedCandidates>)
    ensures
        candidates_view(r@) == collapse_unsegmented_airways(candidates_view(c@)),
{
    let ghost cv = candidates_view(c@);
    let mut out: Vec<EnrichedCandidates> = Vec::new();
    let mut i: usize = 0;
    while i < c.len()
        invariant
            i <= c@.len(),
            cv == candidates_view(c@),
            out@.len() == i,
            forall|k: int| 0 <= k < i ==> (#[trigger] out@[k])@ == collapse_unsegmented(cv[k]),
        decreases c@.len() - i,
    {
        let next = match &c[i] {
            EnrichedCandidates::Airway(rs, _, _, _) => {
                let b = all_unsegmented(rs);
                proof {
                    assert(cv[i as int] == c@[i as int]@);
                    assert(cv[i as int] matches CandidateView::Airway(v, _, _, _) && v == routes_view(
                        rs@,
                    ));
                }
                if b {
                    EnrichedCandidates::Direct
                } else {
                    let r = c[i].copied();
                    proof {
                        assert(r@ == cv[i as int]);
                    }
                    r
                }
            },
            other => other.copied(),
        };
        out.push(next);
        i = i + 1;
    }
    proof {
        assert(candidates_view(out@) =~= collapse_unsegmented_airways(cv));
    }
    out
}

/// The first point at or after `i` that needs no tie-break: a point with a
/// single candidate, or a coordinate literal.
pub open spec fn next_definitive(c: Seq<CandidateView>, i: int) -> Option<ResolvedPoint>
    decreases c.len() - i,
{
    if i < 0 || i >= c.len() {
        None
    } else {
        match c[i] {
            CandidateView::Point(ps, _, _) => if ps.len() == 1 {
                Some(ps[0])
            } else {
                next_definitive(c, i + 1)
            },
            CandidateView::PointCoords(p, _, _) => Some(p),
            _ => next_definitive(c, i + 1),
        }
    }
}

/// A tie to break between the candidates of an ambiguous point. The answer
/// is one score per candidate, lower being better; the first best wins.
#[derive(Debug)]
pub enum TieBreakQuery {
    /// Only the last known point is available: score each candidate by its
    /// geodesic distance from `from`.
    Nearest { from: ResolvedPoint, candidates: Vec<ResolvedPoint> },
    /// Both anchors are available: score each candidate by how well it lies
    /// on the way from `from` to `to`.
    Between { from: ResolvedPoint, to: ResolvedPoint, candidates: Vec<ResolvedPoint> },
}

/// What a `TieBreakQuery` denotes.
pub enum QueryView {
    Nearest(ResolvedPoint, Seq<ResolvedPoint>),
    Between(ResolvedPoint, ResolvedPoint, Seq<ResolvedPoint>),
}

impl View for TieBreakQuery {
    type V = QueryView;

    open spec fn view(&self) -> QueryView {
        match self {
            TieBreakQuery::Nearest { from, candidates } => QueryView::Nearest(*from, candidates@),
            TieBreakQuery::Between { from, to, candidates } => QueryView::Between(
                *from,
                *to,
                candidates@,
            ),
        }
    }
}

/// The tie to break at position `i`, given the last known point: an
/// ambiguous point with a last known point. Without one, the candidates
/// stay as they are.
pub open spec fn query_at(c: Seq<CandidateView>, i: int, last: Option<ResolvedPoint>) -> Option<
    QueryView,
> {
    match c[i] {
        CandidateView::Point(ps, _, _) => if ps.len() > 1 && last is Some {
            match next_definitive(c, i) {
                Some(b) => Some(QueryView::Between(last->0, b, ps)),
                None => Some(QueryView::Nearest(last->0, ps)),
            }
        } else {
            None
        },
        _ => None,
    }
}

/// The last known point once the candidate `x` has been passed.
pub open spec fn last_after(x: CandidateView, last: Option<ResolvedPoint>) -> Option<ResolvedPoint> {
    match x {
        CandidateView::Point(ps, _, _) => if ps.len() > 0 {
            Some(ps[0])
        } else {
            last
        },
        CandidateView::PointCoords(p, _, _) => Some(p),
        _ => last,
    }
}

/// The state of the tie-break pass.
pub struct EnrichmentView {
    pub candidates: Seq<CandidateView>,
    pub position: int,
    pub last_known: Option<ResolvedPoint>,
}

/// The state once every position up to the next tie to break is passed.
pub open spec fn settle(v: EnrichmentView) -> EnrichmentView
    decreases v.candidates.len() - v.position,
{
    if v.position < 0 || v.position >= v.candidates.len() || query_at(
        v.candidates,
        v.position,
        v.last_known,
    ) is Some {
        v
    } else {
        settle(
            EnrichmentView {
                candidates: v.candidates,
                position: v.position + 1,
                last_known: last_after(v.candidates[v.position], v.last_known),
            },
        )
    }
}

/// `w` is the first position of a least score.
pub open spec fn is_first_min(scores: Seq<u64>, w: int) -> bool {
    &&& 0 <= w < scores.len()
    &&& forall|j: int| 0 <= j < scores.len() ==> scores[w] <= #[trigger] scores[j]
    &&& forall|j: int| 0 <= j < w ==> scores[w] < #[trigger] scores[j]
}

/// The first position of a least score.
pub open spec fn first_min(scores: Seq<u64>) -> int {
    choose|w: int| is_first_min(scores, w)
}

/// The state once the tie at the current position is broken in favour of
/// candidate `w`: the point keeps that candidate alone, which becomes the
/// last known point.
pub open spec fn choose_candidate(v: EnrichmentView, w: int) -> EnrichmentView {
    match v.candidates[v.position] {
        CandidateView::Point(ps, a, s) => EnrichmentView {
            candidates: v.candidates.update(v.position, CandidateView::Point(seq![ps[w]], a, s)),
            position: v.position + 1,
            last_known: Some(ps[w]),
        },
        _ => v,
    }
}

/// The first best of a non-empty list of scores.
pub fn best_score(scores: &Vec<u64>) -> (w: usize)
    requires
        scores@.len() > 0,
    ensures
        w == first_min(scores@),
        is_first_min(scores@, w as int),
{
    let mut best: usize = 0;
    let mut j: usize = 1;
    while j < scores.len()
        invariant
            scores@.len() > 0,
            best < j <= scores@.len(),
            forall|k: int| 0 <= k < j ==> scores@[best as int] <= #[trigger] scores@[k],
            forall|k: int| 0 <= k < best ==> scores@[best as int] < #[trigger] scores@[k],
        decreases scores@.len() - j,
    {
        if scores[j] < scores[best] {
            best = j;
        }
        j = j + 1;
    }
    proof {
        let c = choose|c: int| is_first_min(scores@, c);
        assert(is_first_min(scores@, best as int));
        if c < best {
            assert(scores@[best as int] < scores@[c]);
        }
        if c > best {
            assert(scores@[c] < scores@[best as int]);
        }
    }
    best
}

/// The tie-break pass and the emission of the segments, driven by a caller
/// that scores candidates.
pub struct RouteEnrichment {
    candidates: Vec<EnrichedCandidates>,
    position: usize,
    last_known: Option<ResolvedPoint>,
}

impl View for RouteEnrichment {
    type V = EnrichmentView;

    closed spec fn view(&self) -> EnrichmentView {
        EnrichmentView {
            candidates: candidates_view(self.candidates@),
            position: self.position as int,
            last_known: self.last_known,
        }
    }
}

impl RouteEnrichment {
    /// Starts the tie-break pass over prepared candidates.
    pub fn new(candidates: Vec<EnrichedCandidates>) -> (r: RouteEnrichment)
        ensures
            r@ == (EnrichmentView {
                candidates: candidates_view(candidates@),
                position: 0,
                last_known: None,
            }),
    {
        RouteEnrichment { candidates, position: 0, last_known: None }
    }

    fn next_definitive_exec(&self, i: usize) -> (r: Option<ResolvedPoint>)
        ensures
            r == next_definitive(self@.candidates, i as int),
    {
        let ghost cv = self@.candidates;
        let mut j: usize = i;
        while j < self.candidates.len()
            invariant
                cv == candidates_view(self.candidates@),
                i <= j,
                next_definitive(cv, j as int) == next_definitive(cv, i as int),
            decreases self.candidates@.len() - j,
        {
            proof {
                assert(cv[j as int] == self.candidates@[j as int]@);
            }
            match &self.candidates[j] {
                EnrichedCandidates::Point(ps, _, _) => {
                    if ps.len() == 1 {
                        return Some(ps[0].copied());
                    }
                },
                EnrichedCandidates::PointCoords(p, _, _) => {
                    return Some(p.copied());
                },
                _ => {},
            }
            j = j + 1;
        }
        None
    }

    fn query_exec(&self) -> (r: Option<TieBreakQuery>)
        requires
            self.position < self.candidates@.len(),
        ensures
            r is Some <==> query_at(self@.candidates, self@.position, self@.last_known) is Some,
            r is Some ==> Some(r->0@) == query_at(
                self@.candidates,
                self@.position,
                self@.last_known,
            ),
    {
        let i = self.position;
        proof {
            assert(self@.candidates[i as int] == self.candidates@[i as int]@);
        }
        match &self.candidates[i] {
            EnrichedCandidates::Point(ps, _, _) => {
                if ps.len() > 1 {
                    match &self.last_known {
                        Some(a) => match self.next_definitive_exec(i) {
                            Some(b) => Some(
                                TieBreakQuery::Between {
                                    from: a.copied(),
                                    to: b,
                                    candidates: copy_points(ps),
                                },
                            ),
                            None => Some(
                                TieBreakQuery::Nearest { from: a.copied(), candidates: copy_points(ps) },
                            ),
                        },
                        None => None,
                    }
                } else {
                    None
                }
            },
            _ => None,
        }
    }

    /// Passes the positions that need no tie-break, and returns the next tie
    /// to break, or `None` once every position is passed.
    pub fn next_query(&mut self) -> (r: Option<TieBreakQuery>)
        ensures
            final(self)@ == settle(old(self)@),
            r is None <==> final(self)@.position >= final(self)@.candidates.len(),
            r is Some ==> query_at(
                final(self)@.candidates,
                final(self)@.position,
                final(self)@.last_known,
            ) == Some(r->0@),
    {
        let ghost start = self@;
        while self.position < self.candidates.len()
            invariant
                settle(self@) == settle(start),
                start == old(self)@,
            decreases self.candidates@.len() - self.position,
        {
            match self.query_exec() {
                Some(q) => {
                    proof {
                        assert(settle(self@) == self@);
                    }
                    return Some(q);
                },
                None => {},
            }
            let i = self.position;
            proof {
                assert(self@.candidates[i as int] == self.candidates@[i as int]@);
            }
            let next_last = match &self.candidates[i] {
                EnrichedCandidates::Point(ps, _, _) => if ps.len() > 0 {
                    Some(ps[0].copied())
                } else {
                    match &self.last_known {
                        Some(p) => Some(p.copied()),
                        None => None,
                    }
                },
                EnrichedCandidates::PointCoords(p, _, _) => Some(p.copied()),
                _ => match &self.last_known {
                    Some(p) => Some(p.copied()),
                    None => None,
                },
            };
            self.last_known = next_last;
            self.position = i + 1;
        }
        None
    }

    /// Breaks the pending tie with one score per candidate: the point keeps
    /// the first candidate of least score.
    pub fn answer(&mut self, scores: &Vec<u64>)
        requires
            0 <= old(self)@.position < old(self)@.candidates.len(),
            query_at(old(self)@.candidates, old(self)@.position, old(self)@.last_known) is Some,
            old(self)@.candidates[old(self)@.position] matches CandidateView::Point(ps, _, _)
                && scores@.len() == ps.len(),
        ensures
            final(self)@ == choose_candidate(old(self)@, first_min(scores@)),
    {
        let i = self.position;
        let n = self.candidates.len();
        proof {
            assert(self@.candidates[i as int] == self.candidates@[i as int]@);
            assert(i < n);
        }
        let ghost cv = self@.candidates;
        let chosen = match &self.candidates[i] {
            EnrichedCandidates::Point(ps, a, s) => {
                let w = best_score(scores);
                let p = ps[w].copied();
                let mut one: Vec<ResolvedPoint> = Vec::new();
                one.push(p.copied());
                proof {
                    assert(one@ =~= seq![ps@[w as int]]);
                }
                Some((EnrichedCandidates::Point(one, *a, *s), p))
            },
            _ => None,
        };
        match chosen {
            Some((c, p)) => {
                self.candidates.set(i, c);
                self.last_known = Some(p);
                self.position = i + 1;
                proof {
                    assert(self@.candidates =~= choose_candidate(
                        EnrichmentView {
                            candidates: cv,
                            position: i as int,
                            last_known: old(self)@.last_known,
                        },
                        first_min(scores@),
                    ).candidates);
                }
            },
            None => {},
        }
    }
}

/// An airway segment as emitted: renamed after the airway token and carrying
/// the constraints in force there.
pub open spec fn relabel(n: Seq<char>, a: Option<Altitude>, s: Option<Speed>) -> spec_fn(
    SegmentView,
) -> SegmentView {
    |g: SegmentView| SegmentView { start: g.start, end: g.end, name: Some(n), altitude: a, speed: s }
}

/// A direct leg between two points.
pub open spec fn direct_leg(
    from: ResolvedPoint,
    to: ResolvedPoint,
    a: Option<Altitude>,
    s: Option<Speed>,
) -> SegmentView {
    SegmentView { start: from, end: to, name: None, altitude: a, speed: s }
}

/// Seventh pass: the segments of the candidates, `prev` being the point
/// reached so far. A point is joined to the previous one (unless it is the
/// same point), an airway contributes the segments of its first route, and a
/// direct leg only carries the previous point forward.
pub open spec fn emit(c: Seq<CandidateView>, prev: Option<ResolvedPoint>) -> Seq<SegmentView>
    decreases c.len(),
{
    if c.len() == 0 {
        Seq::empty()
    } else {
        let rest = c.drop_first();
        match c[0] {
            CandidateView::Point(ps, a, s) => if ps.len() == 0 {
                emit(rest, prev)
            } else {
                match prev {
                    Some(q) => if same_point(q, ps[0]) {
                        emit(rest, prev)
                    } else {
                        seq![direct_leg(q, ps[0], a, s)] + emit(rest, Some(ps[0]))
                    },
                    None => emit(rest, Some(ps[0])),
                }
            },
            CandidateView::PointCoords(p, a, s) => match prev {
                Some(q) => seq![direct_leg(q, p, a, s)] + emit(rest, Some(p)),
                None => emit(rest, Some(p)),
            },
            CandidateView::Airway(rs, n, a, s) => if rs.len() == 0 {
                emit(rest, prev)
            } else {
                let segs = rs[0].segments;
                rs[0].segments.map_values(relabel(n, a, s)) + emit(
                    rest,
                    if segs.len() > 0 {
                        Some(segs.last().end)
                    } else {
                        prev
                    },
                )
            },
            CandidateView::Direct => emit(rest, prev),
        }
    }
}

fn copy_opt_point(p: &Option<ResolvedPoint>) -> (r: Option<ResolvedPoint>)
    ensures
        r == *p,
{
    match p {
        Some(x) => Some(x.copied()),
        None => None,
    }
}

impl RouteEnrichment {
    /// The segments of the route, from the candidates as they stand.
    pub fn finish(self) -> (r: Vec<ResolvedRouteSegment>)
        ensures
            segments_view(r@) == emit(self@.candidates, None),
    {
        let ghost cv = self@.candidates;
        let c = &self.candidates;
        let n = c.len();
        let mut out: Vec<ResolvedRouteSegment> = Vec::new();
        let mut prev: Option<ResolvedPoint> = None;
        let mut i: usize = 0;
        proof {
            assert(cv.subrange(0, n as int) =~= cv);
            assert(segments_view(out@) + emit(cv, None) =~= emit(cv, None));
        }
        while i < n
            invariant
                n == c@.len(),
                cv == candidates_view(c@),
                i <= n,
                segments_view(out@) + emit(cv.subrange(i as int, n as int), prev) == emit(
                    cv,
                    None,
                ),
            decreases n - i,
        {
            let ghost sub = cv.subrange(i as int, n as int);
            let ghost before = segments_view(out@);
            let ghost prev0 = prev;
            proof {
                assert(sub[0] == c@[i as int]@);
                assert(sub.drop_first() =~= cv.subrange(i + 1, n as int));
            }
            match &c[i] {
                EnrichedCandidates::Point(ps, a, s) => {
                    if ps.len() > 0 {
                        let p = &ps[0];
                        let joined = match &prev {
                            Some(q) => if q.same(p) {
                                false
                            } else {
                                out.push(
                                    ResolvedRouteSegment {
                                        start: q.copied(),
                                        end: p.copied(),
                                        name: None,
                                        altitude: *a,
                                        speed: *s,
                                    },
                                );
                                true
                            },
                            None => true,
                        };
                        if joined {
                            prev = Some(p.copied());
                        }
                        proof {
                            if prev0 is Some && joined {
                                assert(segments_view(out@) =~= before + seq![
                                    direct_leg(prev0->0, ps@[0], *a, *s),
                                ]);
                            }
                        }
                    }
                },
                EnrichedCandidates::PointCoords(p, a, s) => {
                    match &prev {
                        Some(q) => {
                            out.push(
                                ResolvedRouteSegment {
                                    start: q.copied(),
                                    end: p.copied(),
                                    name: None,
                                    altitude: *a,
                                    speed: *s,
                                },
                            );
                            proof {
                                assert(segments_view(out@) =~= before + seq![
                                    direct_leg(prev0->0, *p, *a, *s),
                                ]);
                            }
                        },
                        None => {},
                    }
                    prev = Some(p.copied());
                },
                EnrichedCandidates::Airway(rs, name, a, s) => {
                    if rs.len() > 0 {
                        let route = &rs[0];
                        let ghost g = relabel(name@, *a, *s);
                        let mut k: usize = 0;
                        proof {
                            assert(routes_view(rs@)[0] == route@);
                        }
                        while k < route.segments.len()
                            invariant
                                k <= route.segments@.len(),
                                g == relabel(name@, *a, *s),
                                segments_view(out@) == before + route@.segments.subrange(
                                    0,
                                    k as int,
                                ).map_values(g),
                            decreases route.segments@.len() - k,
                        {
                            let seg = &route.segments[k];
                            let ghost old_out = out@;
                            out.push(
                                ResolvedRouteSegment {
                                    start: seg.start.copied(),
                                    end: seg.end.copied(),
                                    name: Some(name.clone()),
                                    altitude: *a,
                                    speed: *s,
                                },
                            );
                            k = k + 1;
                            proof {
                                assert(route@.segments[k - 1] == seg@);
                                assert(segments_view(out@) =~= segments_view(old_out).push(
                                    g(seg@),
                                ));
                                assert(route@.segments.subrange(0, k as int).map_values(g)
                                    =~= route@.segments.subrange(0, k - 1).map_values(g).push(
                                    g(seg@),
                                ));
                                assert(segments_view(out@) =~= before + route@.segments.subrange(
                                    0,
                                    k as int,
                                ).map_values(g));
                            }
                        }
                        proof {
                            assert(route@.segments.subrange(0, k as int) =~= route@.segments);
                        }
                        if route.segments.len() > 0 {
                            let last = route.segments.len() - 1;
                            proof {
                                assert(route@.segments.last() == route.segments@[last as int]@);
                            }
                            prev = Some(route.segments[last].end.copied());
                        }
                    }
                },
                EnrichedCandidates::Direct => {},
            }
            proof {
                assert(before + (emit(sub, prev0)) == segments_view(out@) + emit(
                    cv.subrange(i + 1, n as int),
                    prev,
                ));
            }
            i = i + 1;
        }
        proof {
            assert(cv.subrange(n as int, n as int) =~= Seq::<CandidateView>::empty());
            assert(segments_view(out@) + Seq::<SegmentView>::empty() =~= segments_view(out@));
        }
        out
    }
}

impl AirwayDatabase {
    /// Resolves a route's tokens and runs the first five passes: airways
    /// pruned to the routes through their neighbouring points, points pruned
    /// to those on their neighbouring airways, airways trimmed between their
    /// points, and airways left without geometry turned into direct legs. The
    /// result breaks the remaining ties and emits the segments.
    pub fn enrich_route(&self, elements: Vec<Field15Element>) -> (r: RouteEnrichment)
        ensures
            r@ == (EnrichmentView {
                candidates: prepared(*self, elements@),
                position: 0,
                last_known: None,
            }),
    {
        let c0 = self.candidates(&elements);
        let c1 = prune_airways_exec(&c0);
        let c2 = collapse_empty_airways_exec(&c1);
        let c3 = prune_points_exec(&c2);
        let c4 = trim_airways_exec(&c3);
        let c5 = collapse_unsegmented_exec(&c4);
        RouteEnrichment::new(c5)
    }
}

} // verus!
