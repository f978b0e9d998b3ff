//! Linearisation of a bag of legs into a sequence of points: a topological
//! order over point identifiers, the points no order reaches appended in
//! identifier order.
use vstd::prelude::*;

use crate::entities::{reference_name, PointReference};
use crate::ordering::{chars_less, text_less};

verus! {

/// A leg as a pair of references.
pub type RefLeg = (PointReference, PointReference);

/// Legs with an empty identifier at either end take no part.
pub open spec fn kept(l: RefLeg) -> bool {
    reference_name(l.0).len() > 0 && reference_name(l.1).len() > 0
}

/// The first position of `rs` whose identifier is `n`, or -1.
pub open spec fn index_in(rs: Seq<PointReference>, n: Seq<char>) -> int
    decreases rs.len(),
{
    if rs.len() == 0 {
        -1
    } else {
        let i = index_in(rs.drop_last(), n);
        if i >= 0 {
            i
        } else if reference_name(rs.last()) == n {
            rs.len() - 1
        } else {
            -1
        }
    }
}

pub open spec fn with_node(rs: Seq<PointReference>, r: PointReference) -> Seq<PointReference> {
    if index_in(rs, reference_name(r)) >= 0 {
        rs
    } else {
        rs.push(r)
    }
}

/// The nodes of the leg graph: one reference per identifier, the first seen.
pub open spec fn graph_nodes(legs: Seq<RefLeg>) -> Seq<PointReference>
    decreases legs.len(),
{
    if legs.len() == 0 {
        Seq::empty()
    } else {
        let rs = graph_nodes(legs.drop_last());
        let l = legs.last();
        if kept(l) {
            with_node(with_node(rs, l.0), l.1)
        } else {
            rs
        }
    }
}

/// The edges of the leg graph, as node positions, in leg order.
pub open spec fn graph_edges(legs: Seq<RefLeg>) -> Seq<(int, int)>
    decreases legs.len(),
{
    if legs.len() == 0 {
        Seq::empty()
    } else {
        let es = graph_edges(legs.drop_last());
        let l = legs.last();
        let rs = graph_nodes(legs);
        if kept(l) {
            es.push((index_in(rs, reference_name(l.0)), index_in(rs, reference_name(l.1))))
        } else {
            es
        }
    }
}

/// Number of edges into `v`.
pub open spec fn in_count(es: Seq<(int, int)>, v: int) -> int
    decreases es.len(),
{
    if es.len() == 0 {
        0
    } else {
        in_count(es.drop_last(), v) + if es.last().1 == v {
            1int
        } else {
            0int
        }
    }
}

/// The successors of `v`, in edge order.
pub open spec fn successors(es: Seq<(int, int)>, v: int) -> Seq<int>
    decreases es.len(),
{
    if es.len() == 0 {
        Seq::empty()
    } else {
        let s = successors(es.drop_last(), v);
        if es.last().0 == v {
            s.push(es.last().1)
        } else {
            s
        }
    }
}

/// `x` inserted into `t` before the first node whose name follows its own.
pub open spec fn insert_by_name(t: Seq<int>, x: int, names: Seq<Seq<char>>) -> Seq<int>
    decreases t.len(),
{
    if t.len() == 0 {
        seq![x]
    } else if chars_less(names[x], names[t[0]]) {
        seq![x] + t
    } else {
        seq![t[0]] + insert_by_name(t.drop_first(), x, names)
    }
}

/// `s` in name order, ties in their order in `s`.
pub open spec fn sort_by_name(s: Seq<int>, names: Seq<Seq<char>>) -> Seq<int>
    decreases s.len(),
{
    if s.len() == 0 {
        s
    } else {
        insert_by_name(sort_by_name(s.drop_last(), names), s.last(), names)
    }
}

/// The positions below `k` whose flag is off, in increasing order.
pub open spec fn positions_off(flags: Seq<bool>, k: int) -> Seq<int>
    decreases k,
{
    if k <= 0 {
        Seq::empty()
    } else if !flags[k - 1] {
        positions_off(flags, k - 1).push(k - 1)
    } else {
        positions_off(flags, k - 1)
    }
}

/// The in-degree of every node.
pub open spec fn in_degrees(es: Seq<(int, int)>, n: int) -> Seq<int> {
    Seq::new(n as nat, |v: int| in_count(es, v))
}

/// Lowers the degree of each successor in turn (not below zero), and lists
/// those that reach zero.
pub open spec fn relax(succ: Seq<int>, deg: Seq<int>) -> (Seq<int>, Seq<int>)
    decreases succ.len(),
{
    if succ.len() == 0 {
        (deg, Seq::empty())
    } else {
        let s = succ[0];
        let d = deg.update(s, if deg[s] > 0 {
            deg[s] - 1
        } else {
            0
        });
        let r = relax(succ.drop_first(), d);
        (r.0, if d[s] == 0 {
            seq![s] + r.1
        } else {
            r.1
        })
    }
}

pub open spec fn unseen_count(seen: Seq<bool>) -> nat
    decreases seen.len(),
{
    if seen.len() == 0 {
        0
    } else {
        unseen_count(seen.drop_last()) + if seen.last() {
            0nat
        } else {
            1nat
        }
    }
}

/// The traversal: pop a node, emit it unless already emitted, lower its
/// successors' degrees and queue those that reach zero. Returns the emitted
/// nodes and which nodes were emitted.
pub open spec fn traverse(es: Seq<(int, int)>, queue: Seq<int>, deg: Seq<int>, seen: Seq<bool>) -> (
    Seq<int>,
    Seq<bool>,
)
    decreases unseen_count(seen), queue.len() via traverse_decreases
{
    if queue.len() == 0 || !(0 <= queue[0] < seen.len()) {
        (Seq::empty(), seen)
    } else {
        let v = queue[0];
        if seen[v] {
            traverse(es, queue.drop_first(), deg, seen)
        } else {
            let r = relax(successors(es, v), deg);
            let t = traverse(es, queue.drop_first() + r.1, r.0, seen.update(v, true));
            (seq![v] + t.0, t.1)
        }
    }
}

proof fn lemma_unseen_count_update(u: Seq<bool>, j: int)
    requires
        0 <= j < u.len(),
        !u[j],
    ensures
        unseen_count(u.update(j, true)) + 1 == unseen_count(u),
    decreases u.len(),
{
    if j == u.len() - 1 {
        assert(u.update(j, true).drop_last() =~= u.drop_last());
    } else {
        lemma_unseen_count_update(u.drop_last(), j);
        assert(u.update(j, true).drop_last() =~= u.drop_last().update(j, true));
    }
}

#[via_fn]
proof fn traverse_decreases(es: Seq<(int, int)>, queue: Seq<int>, deg: Seq<int>, seen: Seq<bool>) {
    if queue.len() > 0 && 0 <= queue[0] < seen.len() && !seen[queue[0]] {
        lemma_unseen_count_update(seen, queue[0]);
    }
}

/// The points of a bag of legs in linear order: a topological order seeded
/// with the points no leg arrives at, in identifier order, followed by the
/// points it does not reach, in identifier order.
pub open spec fn linearized(legs: Seq<RefLeg>) -> Seq<PointReference> {
    let rs = graph_nodes(legs);
    let names = rs.map_values(|r: PointReference| reference_name(r));
    let es = graph_edges(legs);
    let n = rs.len() as int;
    let deg = in_degrees(es, n);
    let zero = Seq::new(n as nat, |v: int| deg[v] != 0);
    let t = traverse(
        es,
        sort_by_name(positions_off(zero, n), names),
        deg,
        Seq::new(n as nat, |v: int| false),
    );
    (t.0 + sort_by_name(positions_off(t.1, n), names)).map_values(|v: int| rs[v])
}

proof fn lemma_index_in_absent(rs: Seq<PointReference>, n: Seq<char>)
    requires
        forall|k: int| 0 <= k < rs.len() ==> reference_name(#[trigger] rs[k]) != n,
    ensures
        index_in(rs, n) == -1,
    decreases rs.len(),
{
    if rs.len() > 0 {
        lemma_index_in_absent(rs.drop_last(), n);
    }
}

proof fn lemma_index_in_first(rs: Seq<PointReference>, n: Seq<char>, j: int)
    requires
        0 <= j < rs.len(),
        reference_name(rs[j]) == n,
        forall|k: int| 0 <= k < j ==> reference_name(#[trigger] rs[k]) != n,
    ensures
        index_in(rs, n) == j,
    decreases rs.len(),
{
    if j == rs.len() - 1 {
        lemma_index_in_absent(rs.drop_last(), n);
    } else {
        lemma_index_in_first(rs.drop_last(), n, j);
    }
}

fn find_name(rs: &Vec<PointReference>, names: &Vec<String>, n: &String) -> (r: Option<usize>)
    requires
        names@.len() == rs@.len(),
        forall|k: int| 0 <= k < rs@.len() ==> (#[trigger] names@[k])@ == reference_name(rs@[k]),
    ensures
        r is Some ==> r->0 < rs@.len() && r->0 as int == index_in(rs@, n@),
        r is None ==> index_in(rs@, n@) == -1,
{
    let mut j: usize = 0;
    while j < names.len()
        invariant
            names@.len() == rs@.len(),
            forall|k: int| 0 <= k < rs@.len() ==> (#[trigger] names@[k])@ == reference_name(rs@[k]),
            j <= rs@.len(),
            forall|k: int| 0 <= k < j ==> reference_name(#[trigger] rs@[k]) != n@,
        decreases rs@.len() - j,
    {
        if names[j] == *n {
            proof {
                lemma_index_in_first(rs@, n@, j as int);
            }
            return Some(j);
        }
        j = j + 1;
    }
    proof {
        lemma_index_in_absent(rs@, n@);
    }
    None
}

/// Adds a node for `r` unless one of its identifier is there; returns the
/// node's position.
fn add_node(rs: &mut Vec<PointReference>, names: &mut Vec<String>, r: &PointReference) -> (idx: usize)
    requires
        old(names)@.len() == old(rs)@.len(),
        forall|k: int|
            0 <= k < old(rs)@.len() ==> (#[trigger] old(names)@[k])@ == reference_name(old(rs)@[k]),
    ensures
        final(rs)@ == with_node(old(rs)@, *r),
        final(names)@.len() == final(rs)@.len(),
        forall|k: int|
            0 <= k < final(rs)@.len() ==> (#[trigger] final(names)@[k])@ == reference_name(
                final(rs)@[k],
            ),
        idx < final(rs)@.len(),
        idx as int == index_in(final(rs)@, reference_name(*r)),
{
    let n = r.name();
    match find_name(rs, names, &n) {
        Some(i) => i,
        None => {
            let ghost before = rs@;
            rs.push(r.copied());
            names.push(n);
            proof {
                assert(rs@.drop_last() =~= before);
            }
            rs.len() - 1
        },
    }
}

proof fn lemma_with_node_keeps(rs: Seq<PointReference>, r: PointReference, n: Seq<char>)
    requires
        index_in(rs, n) >= 0,
    ensures
        index_in(with_node(rs, r), n) == index_in(rs, n),
{
    if index_in(rs, reference_name(r)) < 0 {
        assert(rs.push(r).drop_last() =~= rs);
    }
}

pub open spec fn pairs_view(es: Seq<(usize, usize)>) -> Seq<(int, int)> {
    es.map_values(|e: (usize, usize)| (e.0 as int, e.1 as int))
}

/// The nodes of the leg graph with their names, and its edges.
fn build_graph(legs: &Vec<RefLeg>) -> (r: (Vec<PointReference>, Vec<String>, Vec<(usize, usize)>))
    ensures
        r.0@ == graph_nodes(legs@),
        r.1@.len() == r.0@.len(),
        forall|k: int| 0 <= k < r.0@.len() ==> (#[trigger] r.1@[k])@ == reference_name(r.0@[k]),
        pairs_view(r.2@) == graph_edges(legs@),
        forall|k: int| 0 <= k < r.2@.len() ==> (#[trigger] r.2@[k]).0 < r.0@.len() && r.2@[k].1 < r.0@.len(),
{
    let mut rs: Vec<PointReference> = Vec::new();
    let mut names: Vec<String> = Vec::new();
    let mut es: Vec<(usize, usize)> = Vec::new();
    let mut i: usize = 0;
    while i < legs.len()
        invariant
            i <= legs@.len(),
            rs@ == graph_nodes(legs@.subrange(0, i as int)),
            names@.len() == rs@.len(),
            forall|k: int| 0 <= k < rs@.len() ==> (#[trigger] names@[k])@ == reference_name(rs@[k]),
            pairs_view(es@) == graph_edges(legs@.subrange(0, i as int)),
            forall|k: int| 0 <= k < es@.len() ==> (#[trigger] es@[k]).0 < rs@.len() && es@[k].1 < rs@.len(),
        decreases legs@.len() - i,
    {
        let ghost pre = legs@.subrange(0, i + 1);
        proof {
            assert(pre.drop_last() =~= legs@.subrange(0, i as int));
            assert(pre.last() == legs@[i as int]);
        }
        let l = &legs[i];
        let a = l.0.name();
        let b = l.1.name();
        if a.unicode_len() > 0 && b.unicode_len() > 0 {
            let ghost rs0 = rs@;
            let s = add_node(&mut rs, &mut names, &l.0);
            let ghost rs1 = rs@;
            let e = add_node(&mut rs, &mut names, &l.1);
            proof {
                lemma_with_node_keeps(rs1, l.1, reference_name(l.0));
            }
            let ghost es0 = es@;
            es.push((s, e));
            proof {
                assert(pairs_view(es@) =~= pairs_view(es0).push((s as int, e as int)));
            }
        }
        i = i + 1;
    }
    proof {
        assert(legs@.subrange(0, i as int) =~= legs@);
    }
    (rs, names, es)
}

fn successors_of(es: &Vec<(usize, usize)>, v: usize) -> (r: Vec<usize>)
    ensures
        r@.map_values(|x: usize| x as int) == successors(pairs_view(es@), v as int),
        forall|k: int| 0 <= k < r@.len() ==> exists|j: int| 0 <= j < es@.len() && (#[trigger] r@[k]) == es@[j].1,
{
    let ghost all = pairs_view(es@);
    let mut out: Vec<usize> = Vec::new();
    let mut i: usize = 0;
    while i < es.len()
        invariant
            all == pairs_view(es@),
            i <= es@.len(),
            out@.map_values(|x: usize| x as int) == successors(all.subrange(0, i as int), v as int),
            forall|k: int| 0 <= k < out@.len() ==> exists|j: int| 0 <= j < es@.len() && (#[trigger] out@[k]) == es@[j].1,
        decreases es@.len() - i,
    {
        proof {
            assert(all.subrange(0, i + 1).drop_last() =~= all.subrange(0, i as int));
            assert(all.subrange(0, i + 1).last() == (es@[i as int].0 as int, es@[i as int].1 as int));
        }
        let ghost before = out@;
        if es[i].0 == v {
            out.push(es[i].1);
            proof {
                assert(out@.map_values(|x: usize| x as int) =~= before.map_values(|x: usize| x as int).push(
                    es@[i as int].1 as int,
                ));
                assert(out@[out@.len() - 1] == es@[i as int].1);
            }
        }
        i = i + 1;
    }
    proof {
        assert(all.subrange(0, i as int) =~= all);
    }
    out
}

pub open spec fn degrees_view(d: Seq<usize>) -> Seq<int> {
    d.map_values(|x: usize| x as int)
}

fn degrees(es: &Vec<(usize, usize)>, n: usize) -> (r: Vec<usize>)
    requires
        forall|k: int| 0 <= k < es@.len() ==> (#[trigger] es@[k]).1 < n,
    ensures
        degrees_view(r@) == in_degrees(pairs_view(es@), n as int),
{
    let ghost all = pairs_view(es@);
    let mut d: Vec<usize> = vec![0; n];
    let mut i: usize = 0;
    while i < es.len()
        invariant
            all == pairs_view(es@),
            forall|k: int| 0 <= k < es@.len() ==> (#[trigger] es@[k]).1 < n,
            i <= es@.len(),
            d@.len() == n,
            forall|v: int| 0 <= v < n ==> (#[trigger] d@[v]) as int == in_count(all.subrange(0, i as int), v),
            forall|v: int| 0 <= v < n ==> #[trigger] d@[v] <= i,
        decreases es@.len() - i,
    {
        proof {
            assert(all.subrange(0, i + 1).drop_last() =~= all.subrange(0, i as int));
            assert(all.subrange(0, i + 1).last() == (es@[i as int].0 as int, es@[i as int].1 as int));
        }
        let t = es[i].1;
        let c = d[t];
        d.set(t, c + 1);
        i = i + 1;
    }
    proof {
        assert(all.subrange(0, i as int) =~= all);
        assert(degrees_view(d@) =~= in_degrees(all, n as int));
    }
    d
}

proof fn lemma_insert_by_name_after(t: Seq<int>, x: int, names: Seq<Seq<char>>, i: int)
    requires
        0 <= i <= t.len(),
        forall|j: int| 0 <= j < i ==> !chars_less(names[x], names[#[trigger] t[j]]),
    ensures
        insert_by_name(t, x, names) == t.subrange(0, i) + insert_by_name(
            t.subrange(i, t.len() as int),
            x,
            names,
        ),
    decreases i,
{
    if i == 0 {
        assert(t.subrange(0, t.len() as int) =~= t);
        assert(t.subrange(0, 0) + insert_by_name(t, x, names) =~= insert_by_name(t, x, names));
    } else {
        let rest = t.drop_first();
        lemma_insert_by_name_after(rest, x, names, i - 1);
        assert(rest.subrange(0, i - 1) =~= t.subrange(1, i));
        assert(rest.subrange(i - 1, rest.len() as int) =~= t.subrange(i, t.len() as int));
        let tail = insert_by_name(t.subrange(i, t.len() as int), x, names);
        assert(seq![t[0]] + (t.subrange(1, i) + tail) =~= t.subrange(0, i) + tail);
    }
}

pub open spec fn names_view(names: Seq<String>) -> Seq<Seq<char>> {
    names.map_values(|s: String| s@)
}

pub open spec fn index_view(v: Seq<usize>) -> Seq<int> {
    v.map_values(|x: usize| x as int)
}

fn sort_indices(s: &Vec<usize>, names: &Vec<String>) -> (r: Vec<usize>)
    requires
        forall|k: int| 0 <= k < s@.len() ==> (#[trigger] s@[k]) < names@.len(),
    ensures
        index_view(r@) == sort_by_name(index_view(s@), names_view(names@)),
        forall|k: int| 0 <= k < r@.len() ==> (#[trigger] r@[k]) < names@.len(),
{
    let ghost nv = names_view(names@);
    let ghost sv = index_view(s@);
    let mut out: Vec<usize> = Vec::new();
    let mut i: usize = 0;
    proof {
        assert(sv.subrange(0, 0) =~= Seq::<int>::empty());
        assert(index_view(out@) =~= Seq::<int>::empty());
    }
    while i < s.len()
        invariant
            nv == names_view(names@),
            sv == index_view(s@),
            forall|k: int| 0 <= k < s@.len() ==> (#[trigger] s@[k]) < names@.len(),
            i <= s@.len(),
            index_view(out@) == sort_by_name(sv.subrange(0, i as int), nv),
            forall|k: int| 0 <= k < out@.len() ==> (#[trigger] out@[k]) < names@.len(),
        decreases s@.len() - i,
    {
        proof {
            assert(sv.subrange(0, i + 1).drop_last() =~= sv.subrange(0, i as int));
            assert(sv.subrange(0, i + 1).last() == s@[i as int] as int);
        }
        let x = s[i];
        let ghost t0 = index_view(out@);
        let m = out.len();
        let mut j: usize = 0;
        while j < m && !text_less(&names[x], &names[out[j]])
            invariant
                nv == names_view(names@),
                t0 == index_view(out@),
                m == out@.len(),
                x < names@.len(),
                forall|k: int| 0 <= k < out@.len() ==> (#[trigger] out@[k]) < names@.len(),
                j <= m,
                forall|k: int| 0 <= k < j ==> !chars_less(nv[x as int], nv[#[trigger] t0[k]]),
            decreases m - j,
        {
            proof {
                assert(t0[j as int] == out@[j as int] as int);
            }
            j = j + 1;
        }
        proof {
            lemma_insert_by_name_after(t0, x as int, nv, j as int);
        }
        let ghost before = out@;
        out.insert(j, x);
        proof {
            let rest = t0.subrange(j as int, m as int);
            if j < m {
                assert(rest[0] == t0[j as int]);
                assert(t0[j as int] == before[j as int] as int);
            } else {
                assert(rest =~= Seq::<int>::empty());
            }
            assert(index_view(out@) =~= t0.subrange(0, j as int) + (seq![x as int] + rest));
            assert forall|k: int| 0 <= k < out@.len() implies (#[trigger] out@[k]) < names@.len() by {
                if k < j {
                    assert(out@[k] == before[k]);
                } else if k > j {
                    assert(out@[k] == before[k - 1]);
                }
            }
        }
        i = i + 1;
    }
    proof {
        assert(sv.subrange(0, i as int) =~= sv);
    }
    out
}

fn off_positions(flags: &Vec<bool>) -> (r: Vec<usize>)
    ensures
        index_view(r@) == positions_off(flags@, flags@.len() as int),
        forall|k: int| 0 <= k < r@.len() ==> (#[trigger] r@[k]) < flags@.len(),
{
    let mut out: Vec<usize> = Vec::new();
    let mut v: usize = 0;
    proof {
        assert(index_view(out@) =~= positions_off(flags@, 0));
    }
    while v < flags.len()
        invariant
            v <= flags@.len(),
            index_view(out@) == positions_off(flags@, v as int),
            forall|k: int| 0 <= k < out@.len() ==> (#[trigger] out@[k]) < v,
        decreases flags@.len() - v,
    {
        let ghost before = out@;
        if !flags[v] {
            out.push(v);
            proof {
                assert(index_view(out@) =~= index_view(before).push(v as int));
            }
        }
        v = v + 1;
    }
    out
}

fn run_traversal(es: &Vec<(usize, usize)>, n: usize, start: Vec<usize>, degree: Vec<usize>) -> (r: (
    Vec<usize>,
    Vec<bool>,
))
    requires
        forall|k: int| 0 <= k < es@.len() ==> (#[trigger] es@[k]).0 < n && es@[k].1 < n,
        forall|k: int| 0 <= k < start@.len() ==> (#[trigger] start@[k]) < n,
        degree@.len() == n,
    ensures
        index_view(r.0@) == traverse(
            pairs_view(es@),
            index_view(start@),
            degrees_view(degree@),
            Seq::new(n as nat, |v: int| false),
        ).0,
        r.1@ == traverse(
            pairs_view(es@),
            index_view(start@),
            degrees_view(degree@),
            Seq::new(n as nat, |v: int| false),
        ).1,
        r.1@.len() == n,
        forall|k: int| 0 <= k < r.0@.len() ==> (#[trigger] r.0@[k]) < n,
{
    let ghost all = pairs_view(es@);
    let ghost total = traverse(
        all,
        index_view(start@),
        degrees_view(degree@),
        Seq::new(n as nat, |v: int| false),
    );
    let mut queue = start;
    let mut head: usize = 0;
    let mut deg = degree;
    let mut seen: Vec<bool> = vec![false; n];
    let mut out: Vec<usize> = Vec::new();
    proof {
        assert(seen@ =~= Seq::new(n as nat, |v: int| false));
        assert(index_view(queue@).subrange(0, queue@.len() as int) =~= index_view(queue@));
        assert(index_view(out@) + total.0 =~= total.0);
    }
    while head < queue.len()
        invariant
            all == pairs_view(es@),
            forall|k: int| 0 <= k < es@.len() ==> (#[trigger] es@[k]).0 < n && es@[k].1 < n,
            forall|k: int| 0 <= k < queue@.len() ==> (#[trigger] queue@[k]) < n,
            deg@.len() == n,
            seen@.len() == n,
            head <= queue@.len(),
            forall|k: int| 0 <= k < out@.len() ==> (#[trigger] out@[k]) < n,
            index_view(out@) + traverse(
                all,
                index_view(queue@).subrange(head as int, queue@.len() as int),
                degrees_view(deg@),
                seen@,
            ).0 == total.0,
            traverse(
                all,
                index_view(queue@).subrange(head as int, queue@.len() as int),
                degrees_view(deg@),
                seen@,
            ).1 == total.1,
        decreases unseen_count(seen@), queue@.len() - head,
    {
        let ghost q = index_view(queue@).subrange(head as int, queue@.len() as int);
        let ghost d0 = degrees_view(deg@);
        let ghost s0 = seen@;
        let ghost o0 = index_view(out@);
        let v = queue[head];
        head = head + 1;
        proof {
            assert(q[0] == v as int);
            assert(q.drop_first() =~= index_view(queue@).subrange(head as int, queue@.len() as int));
        }
        if !seen[v] {
            proof {
                lemma_unseen_count_update(s0, v as int);
            }
            seen.set(v, true);
            out.push(v);
            let succ = successors_of(es, v);
            let ghost sv = succ@.map_values(|x: usize| x as int);
            let ghost l0 = queue@.len();
            let ghost qpre = index_view(queue@);
            let mut k: usize = 0;
            proof {
                assert(sv.subrange(0, sv.len() as int) =~= sv);
                assert(index_view(queue@).subrange(l0 as int, l0 as int) + relax(sv, d0).1 =~= relax(
                    sv,
                    d0,
                ).1);
            }
            while k < succ.len()
                invariant
                    forall|j: int| 0 <= j < es@.len() ==> (#[trigger] es@[j]).0 < n && es@[j].1 < n,
                    forall|j: int| 0 <= j < succ@.len() ==> exists|i: int| 0 <= i < es@.len() && (#[trigger] succ@[j]) == es@[i].1,
                    forall|j: int| 0 <= j < queue@.len() ==> (#[trigger] queue@[j]) < n,
                    sv == succ@.map_values(|x: usize| x as int),
                    deg@.len() == n,
                    forall|j: int| 0 <= j < out@.len() ==> (#[trigger] out@[j]) < n,
                    k <= succ@.len(),
                    l0 <= queue@.len(),
                    index_view(queue@).subrange(0, l0 as int) == qpre,
                    head <= l0,
                    relax(sv, d0).0 == relax(sv.subrange(k as int, sv.len() as int), degrees_view(deg@)).0,
                    relax(sv, d0).1 == index_view(queue@).subrange(l0 as int, queue@.len() as int)
                        + relax(sv.subrange(k as int, sv.len() as int), degrees_view(deg@)).1,
                decreases succ@.len() - k,
            {
                let t = succ[k];
                proof {
                    let j = choose|i: int| 0 <= i < es@.len() && succ@[k as int] == es@[i].1;
                    assert(t < n);
                }
                let ghost sub = sv.subrange(k as int, sv.len() as int);
                let ghost dk = degrees_view(deg@);
                let ghost qk = index_view(queue@);
                proof {
                    assert(sub[0] == t as int);
                    assert(sub.drop_first() =~= sv.subrange(k + 1, sv.len() as int));
                }
                let c = deg[t];
                let lowered = if c > 0 {
                    c - 1
                } else {
                    0
                };
                deg.set(t, lowered);
                proof {
                    assert(degrees_view(deg@) =~= dk.update(t as int, if dk[t as int] > 0 {
                        dk[t as int] - 1
                    } else {
                        0
                    }));
                }
                if lowered == 0 {
                    queue.push(t);
                    proof {
                        assert(index_view(queue@) =~= qk.push(t as int));
                        assert(index_view(queue@).subrange(l0 as int, queue@.len() as int) =~= qk.subrange(
                            l0 as int,
                            qk.len() as int,
                        ).push(t as int));
                        let rest = relax(sv.subrange(k + 1, sv.len() as int), degrees_view(deg@)).1;
                        assert(qk.subrange(l0 as int, qk.len() as int) + (seq![t as int] + rest)
                            =~= qk.subrange(l0 as int, qk.len() as int).push(t as int) + rest);
                    }
                }
                k = k + 1;
            }
            proof {
                assert(sv.subrange(k as int, sv.len() as int) =~= Seq::<int>::empty());
                assert(sv == successors(all, v as int));
                let r = relax(sv, d0);
                assert(relax(sv.subrange(k as int, sv.len() as int), degrees_view(deg@)).1 =~= Seq::<
                    int,
                >::empty());
                assert(index_view(queue@).subrange(l0 as int, queue@.len() as int) =~= r.1);
                assert(index_view(queue@).subrange(head as int, l0 as int) =~= qpre.subrange(
                    head as int,
                    l0 as int,
                ));
                assert(q.drop_first() =~= qpre.subrange(head as int, l0 as int));
                assert(index_view(queue@).subrange(head as int, queue@.len() as int) =~= q.drop_first()
                    + r.1);
                assert(degrees_view(deg@) == r.0);
                assert(index_view(out@) =~= o0 + seq![v as int]);
            }
        }
        proof {
            assert(index_view(out@) + traverse(
                all,
                index_view(queue@).subrange(head as int, queue@.len() as int),
                degrees_view(deg@),
                seen@,
            ).0 == total.0) by {
                if s0[v as int] {
                } else {
                    let t = traverse(
                        all,
                        index_view(queue@).subrange(head as int, queue@.len() as int),
                        degrees_view(deg@),
                        seen@,
                    );
                    assert(o0 + (seq![v as int] + t.0) =~= (o0 + seq![v as int]) + t.0);
                }
            }
        }
    }
    proof {
        assert(index_view(queue@).subrange(head as int, queue@.len() as int) =~= Seq::<int>::empty());
        assert(index_view(out@) + Seq::<int>::empty() =~= index_view(out@));
    }
    (out, seen)
}

/// The points of a bag of legs in linear order. Legs with an empty
/// identifier at either end are left out; points are told apart by
/// identifier, each standing for the first reference seen with it. The
/// points no leg arrives at seed the order, in identifier order; a point
/// follows once every leg into it is passed, successors taken in leg order;
/// the points this never reaches (on cycles) close the list in identifier
/// order.
pub fn order_points_from_legs(legs: &Vec<RefLeg>) -> (r: Vec<PointReference>)
    ensures
        r@ == linearized(legs@),
{
    let (rs, names, es) = build_graph(legs);
    let n = rs.len();
    let deg = degrees(&es, n);
    proof {
        assert(degrees_view(deg@).len() == deg@.len());
    }
    let mut nonzero: Vec<bool> = Vec::new();
    let mut v: usize = 0;
    while v < n
        invariant
            v <= n,
            deg@.len() == n,
            nonzero@.len() == v,
            forall|k: int| 0 <= k < v ==> (#[trigger] nonzero@[k]) == (deg@[k] != 0),
        decreases n - v,
    {
        nonzero.push(deg[v] != 0);
        v = v + 1;
    }
    let ghost es_view = pairs_view(es@);
    let ghost nm = rs@.map_values(|r: PointReference| reference_name(r));
    proof {
        assert(names_view(names@) =~= nm);
        assert(nonzero@ =~= Seq::new(n as nat, |v: int| in_degrees(es_view, n as int)[v] != 0));
    }
    let zero = off_positions(&nonzero);
    let start = sort_indices(&zero, &names);
    let (order, seen) = run_traversal(&es, n, start, deg);
    let left = off_positions(&seen);
    let rest = sort_indices(&left, &names);
    let ghost all = index_view(order@) + index_view(rest@);
    let mut out: Vec<PointReference> = Vec::new();
    let mut i: usize = 0;
    while i < order.len()
        invariant
            i <= order@.len(),
            n == rs@.len(),
            forall|k: int| 0 <= k < order@.len() ==> (#[trigger] order@[k]) < n,
            out@ == index_view(order@).subrange(0, i as int).map_values(|v: int| rs@[v]),
        decreases order@.len() - i,
    {
        out.push(rs[order[i]].copied());
        i = i + 1;
        proof {
            assert(out@ =~= index_view(order@).subrange(0, i as int).map_values(|v: int| rs@[v]));
        }
    }
    let mut j: usize = 0;
    while j < rest.len()
        invariant
            j <= rest@.len(),
            i == order@.len(),
            n == rs@.len(),
            seen@.len() == n,
            forall|k: int| 0 <= k < rest@.len() ==> (#[trigger] rest@[k]) < n,
            out@ == (index_view(order@) + index_view(rest@).subrange(0, j as int)).map_values(
                |v: int| rs@[v],
            ),
        decreases rest@.len() - j,
    {
        out.push(rs[rest[j]].copied());
        j = j + 1;
        proof {
            assert(out@ =~= (index_view(order@) + index_view(rest@).subrange(0, j as int)).map_values(
                |v: int| rs@[v],
            ));
        }
    }
    proof {
        assert(index_view(rest@).subrange(0, j as int) =~= index_view(rest@));
    }
    out
}

} // verus!
