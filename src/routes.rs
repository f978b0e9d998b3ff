//! The route resolver: airway designators to candidate routes.
use vstd::prelude::*;

use crate::database::{
    resolve_reference, routes_view, segments_view, AirwayDatabase, ResolvedPoint, ResolvedRoute,
    ResolvedRouteSegment, RouteView, SegmentView,
};
use crate::entities::{Route, RouteSegment};

verus! {

/// Whether the character has the Unicode `Alphabetic` property.
pub uninterp spec fn alphabetic(c: char) -> bool;

/// Relies on `char::is_alphabetic`, which tells whether the character has the
/// Unicode `Alphabetic` property.
#[verifier::external_body]
fn is_alphabetic(c: char) -> (r: bool)
    ensures
        r == alphabetic(c),
{
    c.is_alphabetic()
}

/// The view of an optional string.
pub open spec fn opt_view(o: Option<String>) -> Option<Seq<char>> {
    match o {
        Some(s) => Some(s@),
        None => None,
    }
}

/// The text of an optional string, empty when absent.
pub open spec fn opt_text(o: Option<String>) -> Seq<char> {
    match o {
        Some(s) => s@,
        None => Seq::empty(),
    }
}

fn opt_equal(a: &Option<String>, b: &Option<String>) -> (r: bool)
    ensures
        r == (opt_view(*a) == opt_view(*b)),
{
    match (a, b) {
        (Some(x), Some(y)) => *x == *y,
        (None, None) => true,
        _ => false,
    }
}

fn opt_holds(a: &Option<String>, b: &String) -> (r: bool)
    ensures
        r == (opt_view(*a) == Some(b@)),
{
    match a {
        Some(x) => *x == *b,
        None => false,
    }
}

/// The letters that may follow `U`, or stand alone, at the start of an
/// airway designator.
pub open spec fn is_route_letter(c: char) -> bool {
    c == 'L' || c == 'A' || c == 'B' || c == 'G' || c == 'H' || c == 'J' || c == 'Q' || c == 'R'
        || c == 'T' || c == 'V' || c == 'W' || c == 'Y' || c == 'Z' || c == 'M' || c == 'N' || c
        == 'P'
}

fn route_letter(c: char) -> (r: bool)
    ensures
        r == is_route_letter(c),
{
    c == 'L' || c == 'A' || c == 'B' || c == 'G' || c == 'H' || c == 'J' || c == 'Q' || c == 'R'
        || c == 'T' || c == 'V' || c == 'W' || c == 'Y' || c == 'Z' || c == 'M' || c == 'N' || c
        == 'P'
}

/// Whether `name` starts with one of the airway prefixes: one of the sixteen
/// route letters, or `U` followed by one of them.
pub open spec fn has_airway_prefix(name: Seq<char>) -> bool {
    (name.len() >= 1 && is_route_letter(name[0])) || (name.len() >= 2 && name[0] == 'U'
        && is_route_letter(name[1]))
}

/// Whether `name` starts with an airway prefix.
pub fn airway_prefix(name: &str) -> (r: bool)
    ensures
        r == has_airway_prefix(name@),
{
    let n = name.unicode_len();
    if n >= 1 && route_letter(name.get_char(0)) {
        return true;
    }
    n >= 2 && name.get_char(0) == 'U' && route_letter(name.get_char(1))
}

/// The parts of an airway designator.
#[derive(Debug, Clone)]
pub struct RouteDesignator {
    pub prefix: Option<String>,
    pub second_letter: String,
    pub number: String,
    pub multiple_identifier: Option<String>,
}

/// What a `RouteDesignator` denotes.
pub struct DesignatorView {
    pub prefix: Option<Seq<char>>,
    pub second_letter: Seq<char>,
    pub number: Seq<char>,
    pub multiple_identifier: Option<Seq<char>>,
}

impl View for RouteDesignator {
    type V = DesignatorView;

    open spec fn view(&self) -> DesignatorView {
        DesignatorView {
            prefix: opt_view(self.prefix),
            second_letter: self.second_letter@,
            number: self.number@,
            multiple_identifier: opt_view(self.multiple_identifier),
        }
    }
}

/// Decomposition of a designator: a final alphabetic character is the
/// multiple identifier; of the rest, a leading `U` followed by at least two
/// characters is the prefix, the next character is the second letter and what
/// follows is the number. Too short a rest gives an empty letter and number.
pub open spec fn decompose(name: Seq<char>) -> DesignatorView {
    let multiple = name.len() > 0 && alphabetic(name.last());
    let base = if multiple {
        name.drop_last()
    } else {
        name
    };
    let m = if multiple {
        Some(name.subrange(name.len() - 1, name.len() as int))
    } else {
        None
    };
    if base.len() >= 3 && base[0] == 'U' {
        DesignatorView {
            prefix: Some(base.subrange(0, 1)),
            second_letter: base.subrange(1, 2),
            number: base.subrange(2, base.len() as int),
            multiple_identifier: m,
        }
    } else if base.len() >= 2 {
        DesignatorView {
            prefix: None,
            second_letter: base.subrange(0, 1),
            number: base.subrange(1, base.len() as int),
            multiple_identifier: m,
        }
    } else {
        DesignatorView {
            prefix: None,
            second_letter: Seq::empty(),
            number: Seq::empty(),
            multiple_identifier: m,
        }
    }
}

/// Splits an airway designator into prefix, second letter, number and
/// multiple identifier.
pub fn decompose_designator(name: &str) -> (r: RouteDesignator)
    ensures
        r@ == decompose(name@),
{
    let n = name.unicode_len();
    let multiple = n > 0 && is_alphabetic(name.get_char(n - 1));
    let len = if multiple {
        n - 1
    } else {
        n
    };
    let m = if multiple {
        Some(name.substring_char(n - 1, n).to_owned())
    } else {
        None
    };
    let base = name.substring_char(0, len);
    proof {
        assert(multiple ==> base@ =~= name@.drop_last());
        assert(!multiple ==> base@ =~= name@);
    }
    if len >= 3 && base.get_char(0) == 'U' {
        RouteDesignator {
            prefix: Some(base.substring_char(0, 1).to_owned()),
            second_letter: base.substring_char(1, 2).to_owned(),
            number: base.substring_char(2, len).to_owned(),
            multiple_identifier: m,
        }
    } else if len >= 2 {
        RouteDesignator {
            prefix: None,
            second_letter: base.substring_char(0, 1).to_owned(),
            number: base.substring_char(1, len).to_owned(),
            multiple_identifier: m,
        }
    } else {
        RouteDesignator {
            prefix: None,
            second_letter: String::new(),
            number: String::new(),
            multiple_identifier: m,
        }
    }
}

/// Whether a route record carries exactly the parts of a designator.
pub open spec fn route_designated(r: Route, d: DesignatorView) -> bool {
    opt_view(r.prefix) == d.prefix && opt_view(r.second_letter) == Some(d.second_letter)
        && opt_view(r.number) == Some(d.number) && opt_view(r.multiple_identifier)
        == d.multiple_identifier
}

/// The textual name of a route: prefix, second letter and number, without the
/// multiple identifier.
pub open spec fn route_name(r: Route) -> Seq<char> {
    opt_text(r.prefix) + opt_text(r.second_letter) + opt_text(r.number)
}

/// The projection of a stored segment.
pub open spec fn resolve_segment(db: AirwayDatabase, s: RouteSegment) -> SegmentView {
    SegmentView {
        start: resolve_reference(db, s.start),
        end: resolve_reference(db, s.end),
        name: None,
        altitude: None,
        speed: None,
    }
}

/// The projection of `s`, when it belongs to the route `route_id`.
pub open spec fn segment_of(db: AirwayDatabase, route_id: Seq<char>) -> spec_fn(
    RouteSegment,
) -> Option<SegmentView> {
    |s: RouteSegment|
        if opt_view(s.route_formed) == Some(route_id) {
            Some(resolve_segment(db, s))
        } else {
            None
        }
}

/// A route record reified: its segments, in store order, and its name.
pub open spec fn resolve_route(db: AirwayDatabase, r: Route) -> RouteView {
    RouteView {
        name: route_name(r),
        segments: db.route_segments@.filter_map(segment_of(db, r.identifier@)),
    }
}

pub open spec fn route_named(db: AirwayDatabase, d: DesignatorView) -> spec_fn(Route) -> Option<
    RouteView,
> {
    |r: Route|
        if route_designated(r, d) {
            Some(resolve_route(db, r))
        } else {
            None
        }
}

/// The candidate routes of an airway designator, in store order; none when
/// the designator does not start with an airway prefix.
pub open spec fn lookup_route(db: AirwayDatabase, name: Seq<char>) -> Seq<RouteView> {
    if has_airway_prefix(name) {
        db.routes@.filter_map(route_named(db, decompose(name)))
    } else {
        Seq::empty()
    }
}

fn text_of(o: &Option<String>) -> (r: &str)
    ensures
        r@ == opt_text(*o),
{
    match o {
        Some(s) => s.as_str(),
        None => {
            proof {
                reveal_strlit("");
            }
            ""
        },
    }
}

impl ResolvedRouteSegment {
    /// The projection of a stored segment, with no name and no constraint.
    pub fn from_db(segment: &RouteSegment, db: &AirwayDatabase) -> (r: ResolvedRouteSegment)
        ensures
            r@ == resolve_segment(*db, *segment),
    {
        ResolvedRouteSegment {
            start: ResolvedPoint::from_db(&segment.start, db),
            end: ResolvedPoint::from_db(&segment.end, db),
            name: None,
            altitude: None,
            speed: None,
        }
    }
}

impl ResolvedRoute {
    /// The segments of `route`, in store order, under the route's name.
    pub fn from_db(route: &Route, db: &AirwayDatabase) -> (r: ResolvedRoute)
        ensures
            r@ == resolve_route(*db, *route),
    {
        let ghost f = segment_of(*db, route.identifier@);
        let mut segments: Vec<ResolvedRouteSegment> = Vec::new();
        let mut i: usize = 0;
        while i < db.route_segments.len()
            invariant
                i <= db.route_segments@.len(),
                f == segment_of(*db, route.identifier@),
                segments_view(segments@) == db.route_segments@.subrange(0, i as int).filter_map(f),
            decreases db.route_segments@.len() - i,
        {
            let s = &db.route_segments[i];
            proof {
                assert(db.route_segments@.subrange(0, i + 1).drop_last()
                    =~= db.route_segments@.subrange(0, i as int));
            }
            if opt_holds(&s.route_formed, &route.identifier) {
                let seg = ResolvedRouteSegment::from_db(s, db);
                let ghost before = segments@;
                segments.push(seg);
                proof {
                    assert(segments_view(segments@) =~= segments_view(before).push(seg@));
                }
            }
            i = i + 1;
        }
        proof {
            assert(db.route_segments@.subrange(0, i as int) =~= db.route_segments@);
        }
        let mut name = String::new();
        name.append(text_of(&route.prefix));
        name.append(text_of(&route.second_letter));
        name.append(text_of(&route.number));
        proof {
            assert(name@ =~= route_name(*route));
        }
        ResolvedRoute { segments, name }
    }

    /// The routes an airway designator names, in store order. A designator
    /// that does not start with an airway prefix names none.
    pub fn lookup(name: &str, db: &AirwayDatabase) -> (r: Vec<ResolvedRoute>)
        ensures
            routes_view(r@) == lookup_route(*db, name@),
    {
        let mut out: Vec<ResolvedRoute> = Vec::new();
        if !airway_prefix(name) {
            proof {
                assert(routes_view(out@) =~= Seq::<RouteView>::empty());
            }
            return out;
        }
        let d = decompose_designator(name);
        let ghost f = route_named(*db, d@);
        let mut i: usize = 0;
        while i < db.routes.len()
            invariant
                i <= db.routes@.len(),
                f == route_named(*db, d@),
                routes_view(out@) == db.routes@.subrange(0, i as int).filter_map(f),
            decreases db.routes@.len() - i,
        {
            let route = &db.routes[i];
            proof {
                assert(db.routes@.subrange(0, i + 1).drop_last() =~= db.routes@.subrange(
                    0,
                    i as int,
                ));
            }
            if opt_equal(&route.prefix, &d.prefix) && opt_holds(&route.second_letter, &d.second_letter)
                && opt_holds(&route.number, &d.number) && opt_equal(
                &route.multiple_identifier,
                &d.multiple_identifier,
            ) {
                let resolved = ResolvedRoute::from_db(route, db);
                let ghost before = out@;
                out.push(resolved);
                proof {
                    assert(routes_view(out@) =~= routes_view(before).push(resolved@));
                }
            }
            i = i + 1;
        }
        proof {
            assert(db.routes@.subrange(0, i as int) =~= db.routes@);
        }
        out
    }
}

/// Every element of a `filter_map` is the image of some element of the source.
pub proof fn lemma_filter_map_source<A, B>(s: Seq<A>, f: spec_fn(A) -> Option<B>, k: int)
    requires
        0 <= k < s.filter_map(f).len(),
    ensures
        exists|j: int| 0 <= j < s.len() && f(s[j]) == Some(s.filter_map(f)[k]),
    decreases s.len(),
{
    let rest = s.drop_last();
    match f(s.last()) {
        Some(b) => {
            if k < rest.filter_map(f).len() {
                lemma_filter_map_source(rest, f, k);
                let j = choose|j: int| 0 <= j < rest.len() && f(rest[j]) == Some(rest.filter_map(f)[k]);
                assert(s[j] == rest[j]);
            } else {
                assert(f(s[s.len() - 1]) == Some(s.filter_map(f)[k]));
            }
        },
        None => {
            lemma_filter_map_source(rest, f, k);
            let j = choose|j: int| 0 <= j < rest.len() && f(rest[j]) == Some(rest.filter_map(f)[k]);
            assert(s[j] == rest[j]);
        },
    }
}

/// Each route the resolver returns comes from a route record that carries
/// exactly the parts of the designator, and is named by that record's prefix,
/// second letter and number.
pub proof fn lemma_lookup_route_names(db: AirwayDatabase, name: Seq<char>, k: int)
    requires
        0 <= k < lookup_route(db, name).len(),
    ensures
        exists|j: int|
            0 <= j < db.routes@.len() && route_designated(db.routes@[j], decompose(name))
                && lookup_route(db, name)[k] == resolve_route(db, db.routes@[j])
                && lookup_route(db, name)[k].name == route_name(db.routes@[j]),
{
    lemma_filter_map_source(db.routes@, route_named(db, decompose(name)), k);
}

/// A designator that does not start with an airway prefix names no route.
pub proof fn lemma_lookup_route_requires_prefix(db: AirwayDatabase, name: Seq<char>)
    requires
        !has_airway_prefix(name),
    ensures
        lookup_route(db, name).len() == 0,
{
}

} // verus!
