//! A total order on resolved points, and the linearisation of a procedure's
//! legs: walks that start at the earliest point no leg arrives at and follow,
//! from each point, its earliest remaining leg.
use vstd::prelude::*;

use crate::database::{same_point, segments_view, ResolvedPoint, ResolvedRouteSegment, SegmentView};

verus! {

/// Lexicographic order on texts, by code point.
pub open spec fn chars_less(a: Seq<char>, b: Seq<char>) -> bool
    decreases a.len(),
{
    if b.len() == 0 {
        false
    } else if a.len() == 0 {
        true
    } else if (a[0] as u32) < (b[0] as u32) {
        true
    } else if (a[0] as u32) > (b[0] as u32) {
        false
    } else {
        chars_less(a.drop_first(), b.drop_first())
    }
}

proof fn lemma_chars_less_irreflexive(a: Seq<char>)
    ensures
        !chars_less(a, a),
    decreases a.len(),
{
    if a.len() > 0 {
        lemma_chars_less_irreflexive(a.drop_first());
    }
}

proof fn lemma_chars_less_transitive(a: Seq<char>, b: Seq<char>, c: Seq<char>)
    requires
        chars_less(a, b),
        chars_less(b, c),
    ensures
        chars_less(a, c),
    decreases a.len(),
{
    if a.len() > 0 && b.len() > 0 && c.len() > 0 && (a[0] as u32) == (b[0] as u32) && (b[0] as u32)
        == (c[0] as u32) {
        lemma_chars_less_transitive(a.drop_first(), b.drop_first(), c.drop_first());
    }
}

/// Texts that neither precede the other compare alike with every text.
proof fn lemma_chars_less_respects(a: Seq<char>, x: Seq<char>, y: Seq<char>)
    requires
        !chars_less(x, y),
        !chars_less(y, x),
    ensures
        chars_less(a, x) == chars_less(a, y),
        chars_less(x, a) == chars_less(y, a),
    decreases a.len(),
{
    if a.len() > 0 && x.len() > 0 && y.len() > 0 {
        lemma_chars_less_respects(a.drop_first(), x.drop_first(), y.drop_first());
    }
}

/// The kinds of points, in the order they sort.
pub open spec fn point_rank(p: ResolvedPoint) -> int {
    match p {
        ResolvedPoint::AirportHeliport(_) => 0,
        ResolvedPoint::Navaid(_) => 1,
        ResolvedPoint::DesignatedPoint(_) => 2,
        ResolvedPoint::Coordinates { .. } => 3,
        ResolvedPoint::Unresolved => 4,
    }
}

/// The order in which points sort: by kind, then by identifier, or by
/// latitude and longitude for coordinates. Points that neither precede the
/// other are the same point.
pub open spec fn point_less(a: ResolvedPoint, b: ResolvedPoint) -> bool {
    if point_rank(a) != point_rank(b) {
        point_rank(a) < point_rank(b)
    } else {
        match (a, b) {
            (ResolvedPoint::AirportHeliport(x), ResolvedPoint::AirportHeliport(y)) => chars_less(
                x.identifier@,
                y.identifier@,
            ),
            (ResolvedPoint::Navaid(x), ResolvedPoint::Navaid(y)) => chars_less(
                x.identifier@,
                y.identifier@,
            ),
            (ResolvedPoint::DesignatedPoint(x), ResolvedPoint::DesignatedPoint(y)) => chars_less(
                x.identifier@,
                y.identifier@,
            ),
            (
                ResolvedPoint::Coordinates { latitude: la, longitude: oa },
                ResolvedPoint::Coordinates { latitude: lb, longitude: ob },
            ) => la < lb || (la == lb && oa < ob),
            _ => false,
        }
    }
}

/// The identifier text a point sorts by, if it is an entity.
pub open spec fn sort_text(p: ResolvedPoint) -> Seq<char> {
    match p {
        ResolvedPoint::AirportHeliport(x) => x.identifier@,
        ResolvedPoint::Navaid(x) => x.identifier@,
        ResolvedPoint::DesignatedPoint(x) => x.identifier@,
        _ => Seq::empty(),
    }
}

pub proof fn lemma_point_less_irreflexive(a: ResolvedPoint)
    ensures
        !point_less(a, a),
{
    lemma_chars_less_irreflexive(sort_text(a));
}

pub proof fn lemma_point_less_transitive(a: ResolvedPoint, b: ResolvedPoint, c: ResolvedPoint)
    requires
        point_less(a, b),
        point_less(b, c),
    ensures
        point_less(a, c),
{
    if point_rank(a) == point_rank(b) && point_rank(b) == point_rank(c) && point_rank(a) <= 2 {
        lemma_chars_less_transitive(sort_text(a), sort_text(b), sort_text(c));
    }
}

proof fn lemma_point_less_respects(a: ResolvedPoint, x: ResolvedPoint, y: ResolvedPoint)
    requires
        !point_less(x, y),
        !point_less(y, x),
    ensures
        point_less(a, x) == point_less(a, y),
        point_less(x, a) == point_less(y, a),
{
    if point_rank(x) <= 2 {
        lemma_chars_less_respects(sort_text(a), sort_text(x), sort_text(y));
    }
}

pub fn text_less(a: &String, b: &String) -> (r: bool)
    ensures
        r == chars_less(a@, b@),
{
    let s = a.as_str();
    let t = b.as_str();
    let n = s.unicode_len();
    let m = t.unicode_len();
    let mut k: usize = 0;
    proof {
        assert(a@.subrange(0, n as int) =~= a@);
        assert(b@.subrange(0, m as int) =~= b@);
    }
    while k < n && k < m && (s.get_char(k) as u32) == (t.get_char(k) as u32)
        invariant
            s@ == a@,
            t@ == b@,
            n == a@.len(),
            m == b@.len(),
            k <= n,
            k <= m,
            chars_less(a@.subrange(k as int, n as int), b@.subrange(k as int, m as int)) == chars_less(
                a@,
                b@,
            ),
        decreases n - k,
    {
        proof {
            let sa = a@.subrange(k as int, n as int);
            let sb = b@.subrange(k as int, m as int);
            assert(sa.drop_first() =~= a@.subrange(k + 1, n as int));
            assert(sb.drop_first() =~= b@.subrange(k + 1, m as int));
        }
        k = k + 1;
    }
    if k == m {
        false
    } else if k == n {
        true
    } else {
        (s.get_char(k) as u32) < (t.get_char(k) as u32)
    }
}

/// Whether `a` sorts before `b`.
pub fn point_precedes(a: &ResolvedPoint, b: &ResolvedPoint) -> (r: bool)
    ensures
        r == point_less(*a, *b),
{
    let ra: u8 = match a {
        ResolvedPoint::AirportHeliport(_) => 0,
        ResolvedPoint::Navaid(_) => 1,
        ResolvedPoint::DesignatedPoint(_) => 2,
        ResolvedPoint::Coordinates { .. } => 3,
        ResolvedPoint::Unresolved => 4,
    };
    let rb: u8 = match b {
        ResolvedPoint::AirportHeliport(_) => 0,
        ResolvedPoint::Navaid(_) => 1,
        ResolvedPoint::DesignatedPoint(_) => 2,
        ResolvedPoint::Coordinates { .. } => 3,
        ResolvedPoint::Unresolved => 4,
    };
    if ra != rb {
        return ra < rb;
    }
    match (a, b) {
        (ResolvedPoint::AirportHeliport(x), ResolvedPoint::AirportHeliport(y)) => text_less(
            &x.identifier,
            &y.identifier,
        ),
        (ResolvedPoint::Navaid(x), ResolvedPoint::Navaid(y)) => text_less(
            &x.identifier,
            &y.identifier,
        ),
        (ResolvedPoint::DesignatedPoint(x), ResolvedPoint::DesignatedPoint(y)) => text_less(
            &x.identifier,
            &y.identifier,
        ),
        (
            ResolvedPoint::Coordinates { latitude: la, longitude: oa },
            ResolvedPoint::Coordinates { latitude: lb, longitude: ob },
        ) => *la < *lb || (*la == *lb && *oa < *ob),
        _ => false,
    }
}

pub proof fn lemma_point_less_asymmetric(a: ResolvedPoint, b: ResolvedPoint)
    requires
        point_less(a, b),
    ensures
        !point_less(b, a),
{
    if point_less(b, a) {
        lemma_point_less_transitive(a, b, a);
        lemma_point_less_irreflexive(a);
    }
}

/// `x` put in its place in the sorted `t`, unless a point equal to it is
/// there already.
pub open spec fn insert_point(t: Seq<ResolvedPoint>, x: ResolvedPoint) -> Seq<ResolvedPoint>
    decreases t.len(),
{
    if t.len() == 0 {
        seq![x]
    } else if point_less(x, t[0]) {
        seq![x] + t
    } else if point_less(t[0], x) {
        seq![t[0]] + insert_point(t.drop_first(), x)
    } else {
        t
    }
}

/// The points of `s` in point order, each once.
pub open spec fn sort_points(s: Seq<ResolvedPoint>) -> Seq<ResolvedPoint>
    decreases s.len(),
{
    if s.len() == 0 {
        s
    } else {
        insert_point(sort_points(s.drop_last()), s.last())
    }
}

proof fn lemma_insert_point_after(t: Seq<ResolvedPoint>, x: ResolvedPoint, i: int)
    requires
        0 <= i <= t.len(),
        forall|j: int| 0 <= j < i ==> point_less(#[trigger] t[j], x),
    ensures
        insert_point(t, x) == t.subrange(0, i) + insert_point(t.subrange(i, t.len() as int), x),
    decreases i,
{
    if i == 0 {
        assert(t.subrange(0, 0) + insert_point(t.subrange(0, t.len() as int), x) =~= insert_point(
            t,
            x,
        )) by {
            assert(t.subrange(0, t.len() as int) =~= t);
        }
    } else {
        lemma_point_less_asymmetric(t[0], x);
        let rest = t.drop_first();
        lemma_insert_point_after(rest, x, i - 1);
        assert(rest.subrange(0, i - 1) =~= t.subrange(1, i));
        assert(rest.subrange(i - 1, rest.len() as int) =~= t.subrange(i, t.len() as int));
        let tail = insert_point(t.subrange(i, t.len() as int), x);
        assert(seq![t[0]] + (t.subrange(1, i) + tail) =~= t.subrange(0, i) + tail);
    }
}

fn insert_sorted(t: &mut Vec<ResolvedPoint>, x: &ResolvedPoint)
    ensures
        final(t)@ == insert_point(old(t)@, *x),
{
    let ghost t0 = t@;
    let n = t.len();
    let mut i: usize = 0;
    while i < n && point_precedes(&t[i], x)
        invariant
            t@ == t0,
            n == t0.len(),
            i <= n,
            forall|j: int| 0 <= j < i ==> point_less(#[trigger] t0[j], *x),
        decreases n - i,
    {
        i = i + 1;
    }
    proof {
        lemma_insert_point_after(t0, *x, i as int);
    }
    if i == n {
        t.push(x.copied());
        proof {
            assert(t0.subrange(i as int, n as int) =~= Seq::<ResolvedPoint>::empty());
            assert(t@ =~= t0.subrange(0, i as int) + seq![*x]);
        }
    } else if point_precedes(x, &t[i]) {
        t.insert(i, x.copied());
        proof {
            let rest = t0.subrange(i as int, n as int);
            assert(rest[0] == t0[i as int]);
            assert(t@ =~= t0.subrange(0, i as int) + (seq![*x] + rest));
        }
    } else {
        proof {
            let rest = t0.subrange(i as int, n as int);
            assert(rest[0] == t0[i as int]);
            assert(t0 =~= t0.subrange(0, i as int) + rest);
        }
    }
}

/// The points of `s` in point order, each once.
pub fn sorted_points(s: &Vec<ResolvedPoint>) -> (r: Vec<ResolvedPoint>)
    ensures
        r@ == sort_points(s@),
{
    let mut out: Vec<ResolvedPoint> = Vec::new();
    let mut i: usize = 0;
    proof {
        assert(s@.subrange(0, 0) =~= Seq::<ResolvedPoint>::empty());
    }
    while i < s.len()
        invariant
            i <= s@.len(),
            out@ == sort_points(s@.subrange(0, i as int)),
        decreases s@.len() - i,
    {
        proof {
            assert(s@.subrange(0, i + 1).drop_last() =~= s@.subrange(0, i as int));
            assert(s@.subrange(0, i + 1).last() == s@[i as int]);
        }
        insert_sorted(&mut out, &s[i]);
        i = i + 1;
    }
    proof {
        assert(s@.subrange(0, i as int) =~= s@);
    }
    out
}

/// Segment `j` comes before segment `k`: by start, then by end, then by
/// position.
pub open spec fn edge_less(e: Seq<SegmentView>, j: int, k: int) -> bool {
    point_less(e[j].start, e[k].start) || (!point_less(e[k].start, e[j].start) && (point_less(
        e[j].end,
        e[k].end,
    ) || (!point_less(e[k].end, e[j].end) && j < k)))
}

proof fn lemma_edge_less_transitive(e: Seq<SegmentView>, i: int, j: int, k: int)
    requires
        edge_less(e, i, j),
        edge_less(e, j, k),
    ensures
        edge_less(e, i, k),
{
    let (si, sj, sk) = (e[i].start, e[j].start, e[k].start);
    let (ei, ej, ek) = (e[i].end, e[j].end, e[k].end);
    if point_less(si, sj) && point_less(sj, sk) {
        lemma_point_less_transitive(si, sj, sk);
    }
    if point_less(ei, ej) && point_less(ej, ek) {
        lemma_point_less_transitive(ei, ej, ek);
    }
    if !point_less(si, sj) && !point_less(sj, si) {
        lemma_point_less_respects(sk, si, sj);
    }
    if !point_less(sj, sk) && !point_less(sk, sj) {
        lemma_point_less_respects(si, sj, sk);
    }
    if !point_less(ei, ej) && !point_less(ej, ei) {
        lemma_point_less_respects(ek, ei, ej);
    }
    if !point_less(ej, ek) && !point_less(ek, ej) {
        lemma_point_less_respects(ei, ej, ek);
    }
    lemma_point_less_irreflexive(si);
    lemma_point_less_irreflexive(ei);
    if point_less(si, sj) && point_less(sk, si) {
        lemma_point_less_transitive(sk, si, sj);
    }
    if point_less(sj, sk) && point_less(sk, si) {
        lemma_point_less_transitive(sj, sk, si);
    }
    if point_less(ei, ej) && point_less(ek, ei) {
        lemma_point_less_transitive(ek, ei, ej);
    }
    if point_less(ej, ek) && point_less(ek, ei) {
        lemma_point_less_transitive(ej, ek, ei);
    }
}

proof fn lemma_edge_less_asymmetric(e: Seq<SegmentView>, j: int, k: int)
    requires
        edge_less(e, j, k),
    ensures
        !edge_less(e, k, j),
{
    if edge_less(e, k, j) {
        lemma_edge_less_transitive(e, j, k, j);
        lemma_point_less_irreflexive(e[j].start);
        lemma_point_less_irreflexive(e[j].end);
    }
}

/// Which segments a walk may take next.
pub enum Pick {
    /// Those leaving from the point reached.
    From(ResolvedPoint),
    /// Those leaving from a point no segment arrives at.
    Source,
    /// Any.
    Any,
}

/// Some segment arrives at `p`.
pub open spec fn has_incoming(e: Seq<SegmentView>, p: ResolvedPoint) -> bool {
    exists|j: int| 0 <= j < e.len() && same_point(#[trigger] e[j].end, p)
}

pub open spec fn eligible(e: Seq<SegmentView>, used: Seq<bool>, pick: Pick, k: int) -> bool {
    &&& 0 <= k < e.len()
    &&& !used[k]
    &&& match pick {
        Pick::From(p) => same_point(e[k].start, p),
        Pick::Source => !has_incoming(e, e[k].start),
        Pick::Any => true,
    }
}

pub open spec fn is_least(e: Seq<SegmentView>, used: Seq<bool>, pick: Pick, k: int) -> bool {
    eligible(e, used, pick, k) && forall|j: int|
        #[trigger] eligible(e, used, pick, j) && j != k ==> !edge_less(e, j, k)
}

/// The first eligible segment in segment order, or -1.
pub open spec fn least(e: Seq<SegmentView>, used: Seq<bool>, pick: Pick) -> int {
    if exists|k: int| is_least(e, used, pick, k) {
        choose|k: int| is_least(e, used, pick, k)
    } else {
        -1
    }
}

/// The segment taken next: the first one from the point reached, or else the
/// first one from a point no segment arrives at, or else the first one left.
pub open spec fn next_edge(e: Seq<SegmentView>, used: Seq<bool>, cur: Option<ResolvedPoint>) -> int {
    let f = match cur {
        Some(p) => least(e, used, Pick::From(p)),
        None => -1,
    };
    if f >= 0 {
        f
    } else {
        let s = least(e, used, Pick::Source);
        if s >= 0 {
            s
        } else {
            least(e, used, Pick::Any)
        }
    }
}

/// The next `steps` segments of the walk, each taken once.
pub open spec fn walk(e: Seq<SegmentView>, used: Seq<bool>, cur: Option<ResolvedPoint>, steps: nat) -> Seq<
    SegmentView,
>
    decreases steps,
{
    if steps == 0 {
        Seq::empty()
    } else {
        let k = next_edge(e, used, cur);
        if k < 0 {
            Seq::empty()
        } else {
            seq![e[k]] + walk(e, used.update(k, true), Some(e[k].end), (steps - 1) as nat)
        }
    }
}

/// A procedure's segments in walking order.
pub open spec fn order_route_segments(e: Seq<SegmentView>) -> Seq<SegmentView> {
    walk(e, Seq::new(e.len(), |i: int| false), None, e.len())
}

fn incoming(segs: &Vec<ResolvedRouteSegment>, p: &ResolvedPoint) -> (r: bool)
    ensures
        r == has_incoming(segments_view(segs@), *p),
{
    let ghost e = segments_view(segs@);
    let mut j: usize = 0;
    while j < segs.len()
        invariant
            e == segments_view(segs@),
            j <= segs@.len(),
            forall|i: int| 0 <= i < j ==> !same_point(#[trigger] e[i].end, *p),
        decreases segs@.len() - j,
    {
        proof {
            assert(e[j as int] == segs@[j as int]@);
        }
        if segs[j].end.same(p) {
            proof {
                assert(same_point(e[j as int].end, *p));
            }
            return true;
        }
        j = j + 1;
    }
    false
}

fn edge_precedes(segs: &Vec<ResolvedRouteSegment>, j: usize, k: usize) -> (r: bool)
    requires
        j < segs@.len(),
        k < segs@.len(),
    ensures
        r == edge_less(segments_view(segs@), j as int, k as int),
{
    let ghost e = segments_view(segs@);
    proof {
        assert(e[j as int] == segs@[j as int]@);
        assert(e[k as int] == segs@[k as int]@);
    }
    let a = &segs[j];
    let b = &segs[k];
    point_precedes(&a.start, &b.start) || (!point_precedes(&b.start, &a.start) && (point_precedes(
        &a.end,
        &b.end,
    ) || (!point_precedes(&b.end, &a.end) && j < k)))
}

fn is_eligible(segs: &Vec<ResolvedRouteSegment>, used: &Vec<bool>, pick: &Pick, k: usize) -> (r: bool)
    requires
        k < segs@.len(),
        used@.len() == segs@.len(),
    ensures
        r == eligible(segments_view(segs@), used@, *pick, k as int),
{
    if used[k] {
        return false;
    }
    proof {
        assert(segments_view(segs@)[k as int] == segs@[k as int]@);
    }
    match pick {
        Pick::From(p) => segs[k].start.same(p),
        Pick::Source => !incoming(segs, &segs[k].start),
        Pick::Any => true,
    }
}

fn least_edge(segs: &Vec<ResolvedRouteSegment>, used: &Vec<bool>, pick: &Pick) -> (r: Option<usize>)
    requires
        used@.len() == segs@.len(),
    ensures
        r is Some ==> r->0 == least(segments_view(segs@), used@, *pick) && r->0 < segs@.len(),
        r is None ==> least(segments_view(segs@), used@, *pick) == -1,
{
    let ghost e = segments_view(segs@);
    let mut best: Option<usize> = None;
    let mut j: usize = 0;
    while j < segs.len()
        invariant
            e == segments_view(segs@),
            used@.len() == segs@.len(),
            j <= segs@.len(),
            best is None ==> forall|i: int| 0 <= i < j ==> !eligible(e, used@, *pick, i),
            best is Some ==> best->0 < j && eligible(e, used@, *pick, best->0 as int) && forall|i: int|
                0 <= i < j && eligible(e, used@, *pick, i) && i != best->0 ==> !edge_less(
                    e,
                    i,
                    best->0 as int,
                ),
        decreases segs@.len() - j,
    {
        if is_eligible(segs, used, pick, j) {
            match best {
                None => {
                    best = Some(j);
                },
                Some(b) => {
                    if edge_precedes(segs, j, b) {
                        proof {
                            lemma_edge_less_asymmetric(e, j as int, b as int);
                            assert forall|i: int|
                                0 <= i < j + 1 && eligible(e, used@, *pick, i) && i != j implies !edge_less(
                                e,
                                i,
                                j as int,
                            ) by {
                                if edge_less(e, i, j as int) {
                                    lemma_edge_less_transitive(e, i, j as int, b as int);
                                }
                            }
                        }
                        best = Some(j);
                    }
                },
            }
        }
        j = j + 1;
    }
    match best {
        Some(b) => {
            proof {
                assert(is_least(e, used@, *pick, b as int));
                let c = choose|c: int| is_least(e, used@, *pick, c);
                if c != b {
                    assert(!edge_less(e, c, b as int));
                    assert(!edge_less(e, b as int, c));
                    assert(false);
                }
            }
            Some(b)
        },
        None => {
            proof {
                assert(!exists|c: int| is_least(e, used@, *pick, c));
            }
            None
        },
    }
}

/// A procedure's segments in walking order: repeatedly from the first point
/// (in point order) that no segment arrives at, or else from the first point
/// left, each walk following the first remaining segment (by end point) from
/// the point reached, until every segment is taken once.
pub fn order_segments(segs: &Vec<ResolvedRouteSegment>) -> (r: Vec<ResolvedRouteSegment>)
    ensures
        segments_view(r@) == order_route_segments(segments_view(segs@)),
{
    let ghost e = segments_view(segs@);
    let n = segs.len();
    let mut used: Vec<bool> = vec![false; n];
    let mut out: Vec<ResolvedRouteSegment> = Vec::new();
    let mut cur: Option<ResolvedPoint> = None;
    let mut step: usize = 0;
    proof {
        assert(used@ =~= Seq::new(e.len(), |i: int| false));
        assert(segments_view(out@) + walk(e, used@, cur, n as nat) =~= order_route_segments(e));
    }
    while step < n
        invariant
            e == segments_view(segs@),
            n == segs@.len(),
            used@.len() == n,
            step <= n,
            segments_view(out@) + walk(e, used@, cur, (n - step) as nat) == order_route_segments(e),
        decreases n - step,
    {
        let from = match &cur {
            Some(p) => least_edge(segs, &used, &Pick::From(p.copied())),
            None => None,
        };
        let k = match from {
            Some(k) => Some(k),
            None => match least_edge(segs, &used, &Pick::Source) {
                Some(k) => Some(k),
                None => least_edge(segs, &used, &Pick::Any),
            },
        };
        let ghost before = segments_view(out@);
        let ghost u = used@;
        let ghost c = cur;
        match k {
            Some(k) => {
                proof {
                    assert(k as int == next_edge(e, u, c));
                    assert(e[k as int] == segs@[k as int]@);
                }
                out.push(segs[k].copied());
                used.set(k, true);
                cur = Some(segs[k].end.copied());
                proof {
                    assert(segments_view(out@) =~= before.push(e[k as int]));
                    assert(segments_view(out@) + walk(e, used@, cur, (n - step - 1) as nat) =~= before
                        + walk(e, u, c, (n - step) as nat));
                }
            },
            None => {
                proof {
                    assert(next_edge(e, u, c) < 0);
                    assert(walk(e, u, c, (n - step) as nat) =~= Seq::<SegmentView>::empty());
                    assert(walk(e, used@, cur, (n - step - 1) as nat) =~= Seq::<SegmentView>::empty());
                }
            },
        }
        step = step + 1;
    }
    proof {
        assert(segments_view(out@) + Seq::<SegmentView>::empty() =~= segments_view(out@));
    }
    out
}

} // verus!
