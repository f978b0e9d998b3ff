//! Facts about the enrichment pipeline as a whole.
use vstd::prelude::*;

use crate::database::{same_point, AirwayDatabase, ResolvedPoint, SegmentView};
use crate::enrich::{
    build_candidates, choose_candidate, collapse_empty_airways, collapse_unsegmented_airways,
    constraints_after, constraints_after_token, emit, first_min, prepared, prune_airways,
    prune_points, relabel, settle, token_candidates, trim_airways, CandidateView, EnrichmentView,
};
use crate::field15::{Altitude, Field15Element, Speed};

verus! {

/// The constraints a candidate carries; none for a direct leg.
pub open spec fn carried(x: CandidateView) -> Option<(Option<Altitude>, Option<Speed>)> {
    match x {
        CandidateView::Point(_, a, s) => Some((a, s)),
        CandidateView::PointCoords(_, a, s) => Some((a, s)),
        CandidateView::Airway(_, _, a, s) => Some((a, s)),
        CandidateView::Direct => None,
    }
}

/// The candidates of a sequence are those of a prefix followed by those of
/// the rest, built under the constraints the prefix leaves in force.
pub proof fn lemma_build_split(
    db: AirwayDatabase,
    els: Seq<Field15Element>,
    a: Option<Altitude>,
    s: Option<Speed>,
    i: int,
)
    requires
        0 <= i <= els.len(),
    ensures
        build_candidates(db, els, a, s) == build_candidates(db, els.subrange(0, i), a, s)
            + build_candidates(
            db,
            els.subrange(i, els.len() as int),
            constraints_after(els.subrange(0, i), a, s).0,
            constraints_after(els.subrange(0, i), a, s).1,
        ),
    decreases i,
{
    if i == 0 {
        assert(els.subrange(0, 0) =~= Seq::<Field15Element>::empty());
        assert(els.subrange(0, els.len() as int) =~= els);
        assert(build_candidates(db, els.subrange(0, 0), a, s) =~= Seq::<CandidateView>::empty());
        assert(Seq::<CandidateView>::empty() + build_candidates(db, els, a, s) =~= build_candidates(
            db,
            els,
            a,
            s,
        ));
    } else {
        let rest = els.drop_first();
        let n = constraints_after_token(els[0], a, s);
        lemma_build_split(db, rest, n.0, n.1, i - 1);
        let pre = els.subrange(0, i);
        assert(pre[0] == els[0]);
        assert(pre.drop_first() =~= rest.subrange(0, i - 1));
        assert(rest.subrange(i - 1, rest.len() as int) =~= els.subrange(i, els.len() as int));
        let t = token_candidates(db, els[0], a, s);
        let x = build_candidates(db, rest.subrange(0, i - 1), n.0, n.1);
        let m = constraints_after(rest.subrange(0, i - 1), n.0, n.1);
        let y = build_candidates(db, els.subrange(i, els.len() as int), m.0, m.1);
        assert(t + (x + y) =~= (t + x) + y);
    }
}

/// The candidate a point or connector token yields carries the altitude and
/// speed set by the last modifier before that token (none when there is no
/// such modifier).
pub proof fn lemma_candidates_carry_last_modifier(
    db: AirwayDatabase,
    els: Seq<Field15Element>,
    i: int,
)
    requires
        0 <= i < els.len(),
    ensures
        ({
            let before = constraints_after(els.subrange(0, i), None, None);
            let after = constraints_after(els.subrange(0, i + 1), None, None);
            let own = token_candidates(db, els[i], before.0, before.1);
            &&& build_candidates(db, els, None, None) == build_candidates(
                db,
                els.subrange(0, i),
                None,
                None,
            ) + own + build_candidates(db, els.subrange(i + 1, els.len() as int), after.0, after.1)
            &&& forall|k: int|
                0 <= k < own.len() ==> carried(#[trigger] own[k]) is None || carried(own[k])
                    == Some(before)
        }),
{
    lemma_build_split(db, els, None, None, i);
    let before = constraints_after(els.subrange(0, i), None, None);
    let rest = els.subrange(i, els.len() as int);
    lemma_build_split(db, rest, before.0, before.1, 1);
    lemma_build_split(db, els, None, None, i + 1);
    lemma_build_split(db, els.subrange(0, i + 1), None, None, i);
    assert(els.subrange(0, i + 1).subrange(0, i) =~= els.subrange(0, i));
    assert(els.subrange(0, i + 1).subrange(i, i + 1) =~= rest.subrange(0, 1));
    assert(rest.subrange(1, rest.len() as int) =~= els.subrange(i + 1, els.len() as int));
    let one = rest.subrange(0, 1);
    reveal_with_fuel(build_candidates, 2);
    assert(one[0] == els[i]);
    assert(one.drop_first() =~= Seq::<Field15Element>::empty());
    assert(build_candidates(db, one, before.0, before.1) =~= token_candidates(
        db,
        els[i],
        before.0,
        before.1,
    ) + Seq::<CandidateView>::empty());
}

/// The point reached once a candidate is passed in the seventh pass.
pub open spec fn point_after(x: CandidateView, prev: Option<ResolvedPoint>) -> Option<ResolvedPoint> {
    match x {
        CandidateView::Point(ps, _, _) => if ps.len() == 0 {
            prev
        } else {
            match prev {
                Some(q) => if same_point(q, ps[0]) {
                    prev
                } else {
                    Some(ps[0])
                },
                None => Some(ps[0]),
            }
        },
        CandidateView::PointCoords(p, _, _) => Some(p),
        CandidateView::Airway(rs, _, _, _) => if rs.len() > 0 && rs[0].segments.len() > 0 {
            Some(rs[0].segments.last().end)
        } else {
            prev
        },
        CandidateView::Direct => prev,
    }
}

/// The segments a candidate emits in the seventh pass carry the constraints
/// of that candidate.
pub proof fn lemma_segments_carry_candidate_constraints(
    c: Seq<CandidateView>,
    prev: Option<ResolvedPoint>,
)
    requires
        c.len() > 0,
    ensures
        emit(c, prev) == emit(seq![c[0]], prev) + emit(c.drop_first(), point_after(c[0], prev)),
        forall|k: int|
            0 <= k < emit(seq![c[0]], prev).len() ==> carried(c[0]) == Some(
                (
                    (#[trigger] emit(seq![c[0]], prev)[k]).altitude,
                    emit(seq![c[0]], prev)[k].speed,
                ),
            ),
{
    let one = seq![c[0]];
    reveal_with_fuel(emit, 2);
    assert(one.drop_first() =~= Seq::<CandidateView>::empty());
    let e = emit(one, prev);
    let r = emit(c.drop_first(), point_after(c[0], prev));
    match c[0] {
        CandidateView::Airway(rs, n, a, s) => {
            if rs.len() > 0 {
                assert(e =~= rs[0].segments.map_values(relabel(n, a, s)));
            }
        },
        _ => {},
    }
    assert(emit(c, prev) =~= e + r);
}

/// In the emitted segments, every direct leg (a segment without a name)
/// starts where the segment before it ends, and, when a point was reached
/// before, a first direct leg starts there.
pub proof fn lemma_direct_legs_connect(c: Seq<CandidateView>, prev: Option<ResolvedPoint>)
    ensures
        forall|k: int|
            1 <= k < emit(c, prev).len() && (#[trigger] emit(c, prev)[k]).name is None ==> emit(
                c,
                prev,
            )[k].start == emit(c, prev)[k - 1].end,
        emit(c, prev).len() > 0 && emit(c, prev)[0].name is None && prev is Some ==> emit(
            c,
            prev,
        )[0].start == prev->0,
    decreases c.len(),
{
    if c.len() > 0 {
        let rest = c.drop_first();
        let reached = point_after(c[0], prev);
        lemma_direct_legs_connect(rest, reached);
        lemma_segments_carry_candidate_constraints(c, prev);
        let x = emit(seq![c[0]], prev);
        let r = emit(rest, reached);
        let one = seq![c[0]];
        reveal_with_fuel(emit, 2);
        assert(one.drop_first() =~= Seq::<CandidateView>::empty());
        match c[0] {
            CandidateView::Airway(rs, n, a, s) => {
                if rs.len() > 0 {
                    assert(x =~= rs[0].segments.map_values(relabel(n, a, s)));
                }
            },
            _ => {},
        }
        assert(x.len() > 0 ==> reached == Some(x.last().end));
        assert(x.len() == 0 ==> reached == prev || prev is None);
        assert(forall|k: int| 1 <= k < x.len() ==> (#[trigger] x[k]).name is Some);
        assert(x.len() > 0 && x[0].name is None ==> prev is Some && x[0].start == prev->0);
        let all = x + r;
        assert forall|k: int| 1 <= k < all.len() && (#[trigger] all[k]).name is None implies all[k].start
            == all[k - 1].end by {
            if k > x.len() {
                assert(all[k] == r[k - x.len()]);
                assert(all[k - 1] == r[k - 1 - x.len()]);
            } else if k == x.len() {
                assert(all[k] == r[0]);
                assert(all[k - 1] == x.last());
            } else {
                assert(all[k] == x[k]);
            }
        }
        if x.len() == 0 && reached != prev {
            assert(prev is None);
        }
    }
}

/// Each of the first five passes keeps a candidate's constraints, or turns
/// the candidate into a direct leg.
pub proof fn lemma_passes_keep_constraints(db: AirwayDatabase, els: Seq<Field15Element>)
    ensures
        ({
            let built = build_candidates(db, els, None, None);
            let done = prepared(db, els);
            &&& done.len() == built.len()
            &&& forall|k: int|
                0 <= k < done.len() ==> carried(#[trigger] done[k]) is None || carried(done[k])
                    == carried(built[k])
        }),
{
    let b = build_candidates(db, els, None, None);
    let pruned = prune_airways(b);
    let collapsed = collapse_empty_airways(pruned);
    let narrowed = prune_points(collapsed);
    let cut = trim_airways(narrowed);
    let finished = collapse_unsegmented_airways(cut);
    assert forall|k: int| 0 <= k < finished.len() implies carried(#[trigger] finished[k]) is None || carried(
        finished[k],
    ) == carried(b[k]) by {
        assert(carried(pruned[k]) == carried(b[k]));
        assert(carried(collapsed[k]) is None || carried(collapsed[k]) == carried(pruned[k]));
        assert(carried(narrowed[k]) == carried(collapsed[k]));
        assert(carried(cut[k]) == carried(narrowed[k]));
    }
}

/// Enrichment is a function of the tokens and the store: the same inputs give
/// the same candidates, the same ties, the same choices for the same scores,
/// and the same segments.
pub proof fn lemma_enrichment_deterministic(
    db1: AirwayDatabase,
    db2: AirwayDatabase,
    els1: Seq<Field15Element>,
    els2: Seq<Field15Element>,
    v1: EnrichmentView,
    v2: EnrichmentView,
    scores1: Seq<u64>,
    scores2: Seq<u64>,
)
    requires
        db1 == db2,
        els1 == els2,
        v1 == v2,
        scores1 == scores2,
    ensures
        prepared(db1, els1) == prepared(db2, els2),
        settle(v1) == settle(v2),
        choose_candidate(v1, first_min(scores1)) == choose_candidate(v2, first_min(scores2)),
        emit(v1.candidates, None) == emit(v2.candidates, None),
{
}

} // verus!
