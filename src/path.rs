//! Sub-route extraction: a depth-first search for a trail (a walk that uses
//! each segment at most once) through a route's segments, taken in either
//! direction.
use vstd::prelude::*;

use crate::database::{
    same_point, segments_view, ResolvedPoint, ResolvedRoute, ResolvedRouteSegment, RouteView,
    SegmentView,
};

verus! {

/// A step of a trail: a segment index and whether it is taken forward.
pub type Step = (usize, bool);

/// Where a step leaves from.
pub open spec fn step_start(segs: Seq<SegmentView>, st: Step) -> ResolvedPoint {
    if st.1 {
        segs[st.0 as int].start
    } else {
        segs[st.0 as int].end
    }
}

/// Where a step arrives.
pub open spec fn step_end(segs: Seq<SegmentView>, st: Step) -> ResolvedPoint {
    if st.1 {
        segs[st.0 as int].end
    } else {
        segs[st.0 as int].start
    }
}

/// `path` leads from `from` to `to`: each step leaves from the point where the
/// previous one arrived.
pub open spec fn is_walk(
    segs: Seq<SegmentView>,
    path: Seq<Step>,
    from: ResolvedPoint,
    to: ResolvedPoint,
) -> bool
    decreases path.len(),
{
    if path.len() == 0 {
        same_point(from, to)
    } else {
        (path[0].0 as int) < segs.len() && same_point(step_start(segs, path[0]), from) && is_walk(
            segs,
            path.drop_first(),
            step_end(segs, path[0]),
            to,
        )
    }
}

/// No segment is used twice.
pub open spec fn uses_distinct(path: Seq<Step>) -> bool {
    forall|a: int, b: int| 0 <= a < b < path.len() ==> path[a].0 != path[b].0
}

/// No step uses a segment marked in `used`.
pub open spec fn avoids(path: Seq<Step>, used: Seq<bool>) -> bool {
    forall|k: int| 0 <= k < path.len() ==> !used[path[k].0 as int]
}

/// A trail from `s` to `t` through `segs`.
pub open spec fn is_trail(
    segs: Seq<SegmentView>,
    path: Seq<Step>,
    s: ResolvedPoint,
    t: ResolvedPoint,
) -> bool {
    is_walk(segs, path, s, t) && uses_distinct(path)
}

/// The order in which the search tries steps: by segment index, forward first.
pub open spec fn step_key(st: Step) -> int {
    2 * st.0 + if st.1 {
        0int
    } else {
        1int
    }
}

/// Lexicographic order on paths by step key, a path before its extensions:
/// the order in which a depth-first search meets them.
pub open spec fn lex_less(q: Seq<Step>, p: Seq<Step>) -> bool
    decreases q.len(),
{
    if p.len() == 0 {
        false
    } else if q.len() == 0 {
        true
    } else if step_key(q[0]) < step_key(p[0]) {
        true
    } else if step_key(q[0]) == step_key(p[0]) {
        lex_less(q.drop_first(), p.drop_first())
    } else {
        false
    }
}

/// The segment a step contributes: the segment itself forward, or reversed
/// and renamed after the route backward.
pub open spec fn reified_step(route: RouteView, st: Step) -> SegmentView {
    let s = route.segments[st.0 as int];
    if st.1 {
        s
    } else {
        SegmentView {
            start: s.end,
            end: s.start,
            name: Some(route.name),
            altitude: s.altitude,
            speed: s.speed,
        }
    }
}

/// The sub-route a path designates.
pub open spec fn reify(route: RouteView, path: Seq<Step>) -> RouteView {
    RouteView { name: route.name, segments: path.map_values(|st: Step| reified_step(route, st)) }
}

/// Number of segments not yet used.
pub open spec fn unused_count(u: Seq<bool>) -> nat
    decreases u.len(),
{
    if u.len() == 0 {
        0
    } else {
        unused_count(u.drop_last()) + if u.last() {
            0nat
        } else {
            1nat
        }
    }
}

proof fn lemma_unused_count_update(u: Seq<bool>, j: int)
    requires
        0 <= j < u.len(),
        !u[j],
    ensures
        unused_count(u.update(j, true)) + 1 == unused_count(u),
    decreases u.len(),
{
    if j == u.len() - 1 {
        assert(u.update(j, true).drop_last() =~= u.drop_last());
    } else {
        lemma_unused_count_update(u.drop_last(), j);
        assert(u.update(j, true).drop_last() =~= u.drop_last().update(j, true));
    }
}

/// A trail whose first step is `st` continues, after it, as a trail that
/// avoids the segment of `st` too.
proof fn lemma_trail_tail(
    segs: Seq<SegmentView>,
    q: Seq<Step>,
    current: ResolvedPoint,
    target: ResolvedPoint,
    used: Seq<bool>,
)
    requires
        q.len() > 0,
        is_walk(segs, q, current, target),
        uses_distinct(q),
        avoids(q, used),
        used.len() == segs.len(),
    ensures
        is_walk(segs, q.drop_first(), step_end(segs, q[0]), target),
        uses_distinct(q.drop_first()),
        avoids(q.drop_first(), used.update(q[0].0 as int, true)),
        !used[q[0].0 as int],
        same_point(step_start(segs, q[0]), current),
{
    let rest = q.drop_first();
    lemma_walk_in_range(segs, q, current, target);
    assert forall|a: int, b: int| 0 <= a < b < rest.len() implies rest[a].0 != rest[b].0 by {
        assert(rest[a] == q[a + 1] && rest[b] == q[b + 1]);
    }
    assert forall|k: int| 0 <= k < rest.len() implies !used.update(
        q[0].0 as int,
        true,
    )[#[trigger] rest[k].0 as int] by {
        assert(rest[k] == q[k + 1]);
        assert(q[0].0 != q[k + 1].0);
    }
    assert(!used[q[0].0 as int]);
}

/// The first trail, in search order, from `current` to `target` that avoids
/// the segments marked in `used`.
fn search(
    segs: &Vec<ResolvedRouteSegment>,
    current: &ResolvedPoint,
    target: &ResolvedPoint,
    used: &mut Vec<bool>,
) -> (r: Option<Vec<Step>>)
    requires
        old(used)@.len() == segments_view(segs@).len(),
    ensures
        final(used)@ == old(used)@,
        r is Some ==> is_trail(segments_view(segs@), r->0@, *current, *target) && avoids(r->0@, old(used)@),
        r is Some ==> forall|q: Seq<Step>|
            is_trail(segments_view(segs@), q, *current, *target) && avoids(q, old(used)@) ==> !lex_less(
                q,
                r->0@,
            ),
        r is None ==> forall|q: Seq<Step>|
            !(is_trail(segments_view(segs@), q, *current, *target) && avoids(q, old(used)@)),
    decreases unused_count(old(used)@),
{
    let ghost u0 = used@;
    if current.same(target) {
        let p: Vec<Step> = Vec::new();
        proof {
            assert forall|q: Seq<Step>|
                is_trail(segments_view(segs@), q, *current, *target) && avoids(q, u0) implies !lex_less(
                q,
                p@,
            ) by {}
        }
        return Some(p);
    }
    let n = segs.len();
    let mut j: usize = 0;
    while j < n
        invariant
            n == segments_view(segs@).len(),
            j <= n,
            used@ == u0,
            u0 == old(used)@,
            u0.len() == n,
            !same_point(*current, *target),
            forall|q: Seq<Step>|
                is_trail(segments_view(segs@), q, *current, *target) && avoids(q, u0) ==> step_key(q[0]) >= 2
                    * j,
        decreases n - j,
    {
        let ghost jj = j;
        if !used[j] && segs[j].start.same(current) {
            used.set(j, true);
            proof {
                lemma_unused_count_update(u0, j as int);
                assert(used@ == u0.update(j as int, true));
            }
            let r = search(segs, &segs[j].end, target, used);
            used.set(j, false);
            proof {
                assert(used@ =~= u0);
            }
            match r {
                Some(rest) => {
                    let mut p = rest;
                    let ghost tail = p@;
                    p.insert(0, (j, true));
                    proof {
                        assert(p@.drop_first() =~= tail);
                        assert(p@[0] == (j, true));
                        assert(is_walk(segments_view(segs@), p@, *current, *target));
                        lemma_walk_in_range(segments_view(segs@), p@, *current, *target);
                        lemma_walk_in_range(segments_view(segs@), tail, segments_view(segs@)[jj as int].end, *target);
                        assert forall|a: int, b: int| 0 <= a < b < p@.len() implies p@[a].0
                            != p@[b].0 by {
                            if a > 0 {
                                assert(p@[a] == tail[a - 1] && p@[b] == tail[b - 1]);
                            } else {
                                assert(p@[b] == tail[b - 1]);
                            }
                        }
                        assert forall|k: int| 0 <= k < p@.len() implies !u0[p@[k].0 as int] by {
                            if k > 0 {
                                assert(p@[k] == tail[k - 1]);
                                assert(!u0.update(jj as int, true)[tail[k - 1].0 as int]);
                            }
                        }
                        assert forall|q: Seq<Step>|
                            is_trail(segments_view(segs@), q, *current, *target) && avoids(q, u0) implies !lex_less(
                            q,
                            p@,
                        ) by {
                            if q.len() > 0 && q[0] == (jj, true) {
                                lemma_trail_tail(segments_view(segs@), q, *current, *target, u0);
                            }
                        }
                    }
                    return Some(p);
                },
                None => {},
            }
        }
        proof {
            assert forall|q: Seq<Step>|
                is_trail(segments_view(segs@), q, *current, *target) && avoids(q, u0) implies step_key(q[0]) >= 2
                    * jj + 1 by {
                if q.len() > 0 && q[0] == (jj, true) {
                    lemma_trail_tail(segments_view(segs@), q, *current, *target, u0);
                }
            }
        }
        if !used[j] && segs[j].end.same(current) {
            used.set(j, true);
            proof {
                lemma_unused_count_update(u0, j as int);
                assert(used@ == u0.update(j as int, true));
            }
            let r = search(segs, &segs[j].start, target, used);
            used.set(j, false);
            proof {
                assert(used@ =~= u0);
            }
            match r {
                Some(rest) => {
                    let mut p = rest;
                    let ghost tail = p@;
                    p.insert(0, (j, false));
                    proof {
                        assert(p@.drop_first() =~= tail);
                        assert(p@[0] == (j, false));
                        assert(is_walk(segments_view(segs@), p@, *current, *target));
                        lemma_walk_in_range(segments_view(segs@), p@, *current, *target);
                        lemma_walk_in_range(segments_view(segs@), tail, segments_view(segs@)[jj as int].start, *target);
                        assert forall|a: int, b: int| 0 <= a < b < p@.len() implies p@[a].0
                            != p@[b].0 by {
                            if a > 0 {
                                assert(p@[a] == tail[a - 1] && p@[b] == tail[b - 1]);
                            } else {
                                assert(p@[b] == tail[b - 1]);
                            }
                        }
                        assert forall|k: int| 0 <= k < p@.len() implies !u0[p@[k].0 as int] by {
                            if k > 0 {
                                assert(p@[k] == tail[k - 1]);
                                assert(!u0.update(jj as int, true)[tail[k - 1].0 as int]);
                            }
                        }
                        assert forall|q: Seq<Step>|
                            is_trail(segments_view(segs@), q, *current, *target) && avoids(q, u0) implies !lex_less(
                            q,
                            p@,
                        ) by {
                            if q.len() > 0 && q[0] == (jj, false) {
                                lemma_trail_tail(segments_view(segs@), q, *current, *target, u0);
                            }
                        }
                    }
                    return Some(p);
                },
                None => {},
            }
        }
        proof {
            assert forall|q: Seq<Step>|
                is_trail(segments_view(segs@), q, *current, *target) && avoids(q, u0) implies step_key(q[0]) >= 2
                    * (jj + 1) by {
                if q.len() > 0 && q[0] == (jj, false) {
                    lemma_trail_tail(segments_view(segs@), q, *current, *target, u0);
                }
            }
        }
        j = j + 1;
    }
    None
}

impl ResolvedRoute {
    /// The sub-route a path designates: forward steps copy their segment,
    /// backward steps reverse it under the route's name.
    fn build_route_from_path(&self, path: &Vec<Step>) -> (r: ResolvedRoute)
        requires
            forall|k: int| 0 <= k < path@.len() ==> (path@[k].0 as int) < self@.segments.len(),
        ensures
            r@ == reify(self@, path@),
    {
        let mut segments: Vec<ResolvedRouteSegment> = Vec::new();
        let mut k: usize = 0;
        while k < path.len()
            invariant
                k <= path@.len(),
                forall|m: int| 0 <= m < path@.len() ==> (path@[m].0 as int) < self@.segments.len(),
                segments_view(segments@) == path@.subrange(0, k as int).map_values(
                    |st: Step| reified_step(self@, st),
                ),
            decreases path@.len() - k,
        {
            let (i, forward) = path[k];
            let s = &self.segments[i];
            let ghost before = segments@;
            if forward {
                segments.push(s.copied());
            } else {
                segments.push(
                    ResolvedRouteSegment {
                        start: s.end.copied(),
                        end: s.start.copied(),
                        name: Some(self.name.clone()),
                        altitude: s.altitude,
                        speed: s.speed,
                    },
                );
            }
            proof {
                assert(segments_view(segments@) =~= segments_view(before).push(
                    reified_step(self@, (i, forward)),
                ));
                assert(path@.subrange(0, k + 1) =~= path@.subrange(0, k as int).push((i, forward)));
            }
            k = k + 1;
            proof {
                assert(segments_view(segments@) =~= path@.subrange(0, k as int).map_values(
                    |st: Step| reified_step(self@, st),
                ));
            }
        }
        proof {
            assert(path@.subrange(0, k as int) =~= path@);
        }
        ResolvedRoute { segments, name: self.name.clone() }
    }

    /// The sub-route from `start` to `end`: the first trail that a depth-first
    /// search meets, trying segments in order and each forward before
    /// backward. `None` exactly when no trail joins the two points.
    pub fn between(&self, start: &ResolvedPoint, end: &ResolvedPoint) -> (r: Option<ResolvedRoute>)
        ensures
            r is Some <==> sub_route(self@, *start, *end) is Some,
            r is Some ==> r->0@ == sub_route(self@, *start, *end)->0,
    {
        let n = self.segments.len();
        let mut used: Vec<bool> = vec![false; n];
        let ghost u0 = used@;
        let ghost segs = self@.segments;
        proof {
            assert forall|q: Seq<Step>| is_trail(segs, q, *start, *end) implies #[trigger] avoids(
                q,
                u0,
            ) by {
                lemma_walk_in_range(segs, q, *start, *end);
            }
        }
        match search(&self.segments, start, end, &mut used) {
            Some(path) => {
                proof {
                    lemma_walk_in_range(segs, path@, *start, *end);
                    assert(is_trail(segs, path@, *start, *end));
                    lemma_first_trail(segs, *start, *end, path@);
                }
                let route = self.build_route_from_path(&path);
                Some(route)
            },
            None => {
                proof {
                    assert forall|q: Seq<Step>| !is_trail(segs, q, *start, *end) by {
                        if is_trail(segs, q, *start, *end) {
                            assert(avoids(q, u0));
                        }
                    }
                }
                None
            },
        }
    }
}

/// The first trail from `s` to `t` in search order.
pub open spec fn first_trail(segs: Seq<SegmentView>, s: ResolvedPoint, t: ResolvedPoint) -> Seq<
    Step,
> {
    choose|p: Seq<Step>|
        is_trail(segs, p, s, t) && forall|q: Seq<Step>| is_trail(segs, q, s, t) ==> !lex_less(q, p)
}

/// The sub-route of `route` from `s` to `t` along its first trail, if any
/// trail joins them.
pub open spec fn sub_route(route: RouteView, s: ResolvedPoint, t: ResolvedPoint) -> Option<
    RouteView,
> {
    if exists|p: Seq<Step>| is_trail(route.segments, p, s, t) {
        Some(reify(route, first_trail(route.segments, s, t)))
    } else {
        None
    }
}

proof fn lemma_step_key_injective(a: Step, b: Step)
    requires
        step_key(a) == step_key(b),
    ensures
        a == b,
{
}

/// Two different paths are ordered one way or the other.
proof fn lemma_lex_total(p: Seq<Step>, q: Seq<Step>)
    requires
        p != q,
    ensures
        lex_less(p, q) || lex_less(q, p),
    decreases p.len(),
{
    if p.len() > 0 && q.len() > 0 && step_key(p[0]) == step_key(q[0]) {
        lemma_step_key_injective(p[0], q[0]);
        if p.drop_first() == q.drop_first() {
            assert(p =~= seq![p[0]] + p.drop_first());
            assert(q =~= seq![q[0]] + q.drop_first());
        }
        lemma_lex_total(p.drop_first(), q.drop_first());
    } else if p.len() == 0 && q.len() == 0 {
        assert(p =~= q);
    }
}

proof fn lemma_first_trail(segs: Seq<SegmentView>, s: ResolvedPoint, t: ResolvedPoint, p: Seq<Step>)
    requires
        is_trail(segs, p, s, t),
        forall|q: Seq<Step>| is_trail(segs, q, s, t) ==> !lex_less(q, p),
    ensures
        first_trail(segs, s, t) == p,
{
    let c = first_trail(segs, s, t);
    assert(is_trail(segs, c, s, t) && forall|q: Seq<Step>|
        is_trail(segs, q, s, t) ==> !lex_less(q, c));
    if c != p {
        lemma_lex_total(c, p);
    }
}

proof fn lemma_walk_in_range(
    segs: Seq<SegmentView>,
    p: Seq<Step>,
    s: ResolvedPoint,
    t: ResolvedPoint,
)
    requires
        is_walk(segs, p, s, t),
    ensures
        forall|k: int| 0 <= k < p.len() ==> (p[k].0 as int) < segs.len(),
    decreases p.len(),
{
    if p.len() > 0 {
        lemma_walk_in_range(segs, p.drop_first(), step_end(segs, p[0]), t);
        assert forall|k: int| 0 <= k < p.len() implies (p[k].0 as int) < segs.len() by {
            if k > 0 {
                assert(p[k] == p.drop_first()[k - 1]);
            }
        }
    }
}

proof fn lemma_walk_ends(
    segs: Seq<SegmentView>,
    p: Seq<Step>,
    s: ResolvedPoint,
    t: ResolvedPoint,
)
    requires
        is_walk(segs, p, s, t),
        p.len() > 0,
    ensures
        same_point(step_end(segs, p.last()), t),
    decreases p.len(),
{
    if p.len() > 1 {
        lemma_walk_ends(segs, p.drop_first(), step_end(segs, p[0]), t);
        assert(p.drop_first().last() == p.last());
    } else {
        assert(is_walk(segs, p.drop_first(), step_end(segs, p[0]), t));
        assert(p.drop_first().len() == 0);
    }
}

/// A sub-route designated by a trail from `s` to `t` is made of copies of the
/// route's segments, each possibly reversed; no segment of the route is used
/// twice; it starts at `s` and ends at `t`.
pub proof fn lemma_sub_route(route: RouteView, s: ResolvedPoint, t: ResolvedPoint, p: Seq<Step>)
    requires
        is_trail(route.segments, p, s, t),
    ensures
        ({
            let sub = reify(route, p).segments;
            &&& sub.len() == p.len()
            &&& forall|k: int|
                0 <= k < sub.len() ==> {
                    let o = route.segments[p[k].0 as int];
                    &&& 0 <= p[k].0 < route.segments.len()
                    &&& #[trigger] sub[k] == o || (sub[k].start == o.end && sub[k].end == o.start
                        && sub[k].altitude == o.altitude && sub[k].speed == o.speed)
                }
            &&& forall|a: int, b: int| 0 <= a < b < p.len() ==> p[a].0 != p[b].0
            &&& sub.len() > 0 ==> same_point(sub[0].start, s) && same_point(sub.last().end, t)
        }),
{
    let segs = route.segments;
    lemma_walk_in_range(segs, p, s, t);
    let sub = reify(route, p).segments;
    if p.len() > 0 {
        lemma_walk_ends(segs, p, s, t);
        assert(sub.last() == reified_step(route, p.last()));
        lemma_same_point_symmetric(step_start(segs, p[0]), s);
    }
}

proof fn lemma_same_point_symmetric(a: ResolvedPoint, b: ResolvedPoint)
    requires
        same_point(a, b),
    ensures
        same_point(b, a),
{
}

} // verus!
