use vstd::prelude::*;
use crate::graph::{edges_by_endpoint, edges_within, listed, near_end, PackageGraph};
use crate::kind::DepKind;
use crate::sums::{lemma_sum_update, seq_sum};

verus! {

/// How far a node has been promoted: 0 when unreached, then by kind strength.
pub open spec fn level(o: Option<DepKind>) -> nat {
    match o {
        None => 0,
        Some(k) => k.rank() + 1,
    }
}

/// The kind a path through edge `x` can give its target, if its source is reached.
pub open spec fn candidate(eff: Seq<Option<DepKind>>, x: (usize, usize, DepKind)) -> Option<DepKind> {
    match eff[x.0 as int] {
        None => None,
        Some(kp) => Some(x.2.spec_weakest(kp)),
    }
}

/// The target of edge `x` is at least as strong as the path through it.
pub open spec fn edge_settled(eff: Seq<Option<DepKind>>, x: (usize, usize, DepKind)) -> bool {
    level(candidate(eff, x)) <= level(eff[x.1 as int])
}

/// Every edge is settled: the relaxation has reached a fixpoint.
pub open spec fn kinds_closed(es: Seq<(usize, usize, DepKind)>, eff: Seq<Option<DepKind>>) -> bool {
    forall|e: int| 0 <= e < es.len() ==> #[trigger] edge_settled(eff, es[e])
}

/// `p` lists edges, by index, that lead from node `from` to node `to`.
pub open spec fn edge_path(es: Seq<(usize, usize, DepKind)>, from: int, to: int, p: Seq<int>) -> bool {
    &&& forall|i: int| 0 <= i < p.len() ==> 0 <= #[trigger] p[i] < es.len()
    &&& forall|i: int| 0 <= i && i + 1 < p.len() ==> es[#[trigger] p[i]].1 == es[p[i + 1]].0
    &&& p.len() == 0 ==> from == to
    &&& p.len() > 0 ==> es[p[0]].0 as int == from && es[p.last()].1 as int == to
}

/// Strength of a path: the weakest of its edges' kinds, `Normal` for no edge.
pub open spec fn path_strength(es: Seq<(usize, usize, DepKind)>, p: Seq<int>) -> DepKind
    decreases p.len(),
{
    if p.len() == 0 {
        DepKind::Normal
    } else {
        es[p.last()].2.spec_weakest(path_strength(es, p.drop_last()))
    }
}

/// Each reached node has a path from the root whose strength is its kind.
pub open spec fn witnessed(es: Seq<(usize, usize, DepKind)>, eff: Seq<Option<DepKind>>, paths: Seq<Seq<int>>) -> bool {
    forall|c: int|
        0 <= c < eff.len() && eff[c] is Some ==> edge_path(es, 0, c, #[trigger] paths[c]) && path_strength(es, paths[c])
            == eff[c].unwrap()
}

proof fn lemma_path_push(es: Seq<(usize, usize, DepKind)>, from: int, p: Seq<int>, e: int)
    requires
        edge_path(es, from, es[e].0 as int, p),
        0 <= e < es.len(),
    ensures
        edge_path(es, from, es[e].1 as int, p.push(e)),
        path_strength(es, p.push(e)) == es[e].2.spec_weakest(path_strength(es, p)),
{
    let q = p.push(e);
    assert(q.drop_last() =~= p);
    assert forall|i: int| 0 <= i && i + 1 < q.len() implies es[#[trigger] q[i]].1 == es[q[i + 1]].0 by {
        if i + 1 < p.len() {
            assert(q[i] == p[i] && q[i + 1] == p[i + 1]);
        } else {
            assert(q[i] == p.last() && q[i + 1] == e);
        }
    }
    assert forall|i: int| 0 <= i < q.len() implies 0 <= #[trigger] q[i] < es.len() by {
        if i < p.len() {
            assert(q[i] == p[i]);
        }
    }
}

/// At a fixpoint every path from the root reaches a node whose kind is at
/// least the path's strength.
proof fn lemma_path_bound(es: Seq<(usize, usize, DepKind)>, eff: Seq<Option<DepKind>>, c: int, p: Seq<int>)
    requires
        kinds_closed(es, eff),
        edges_within(es, eff.len()),
        eff.len() > 0,
        eff[0] == Some(DepKind::Normal),
        edge_path(es, 0, c, p),
    ensures
        0 <= c < eff.len(),
        eff[c] is Some,
        path_strength(es, p).rank() <= eff[c].unwrap().rank(),
    decreases p.len(),
{
    if p.len() > 0 {
        let q = p.drop_last();
        let e = p.last();
        let m = es[e].0 as int;
        assert forall|i: int| 0 <= i && i + 1 < q.len() implies es[#[trigger] q[i]].1 == es[q[i + 1]].0 by {
            assert(q[i] == p[i] && q[i + 1] == p[i + 1]);
        }
        assert forall|i: int| 0 <= i < q.len() implies 0 <= #[trigger] q[i] < es.len() by {
            assert(q[i] == p[i]);
        }
        if q.len() > 0 {
            assert(es[p[p.len() - 2]].1 == es[p[p.len() - 1]].0);
        }
        lemma_path_bound(es, eff, m, q);
        assert(edge_settled(eff, es[e]));
    }
}

/// One relaxation step along edge `x`: promote the target when the path through
/// `x` is stronger than what it holds.
pub open spec fn relax_edge(eff: Seq<Option<DepKind>>, x: (usize, usize, DepKind)) -> Seq<Option<DepKind>> {
    if level(eff[x.1 as int]) < level(candidate(eff, x)) {
        eff.update(x.1 as int, candidate(eff, x))
    } else {
        eff
    }
}

/// A relaxation pass over the edges in order.
pub open spec fn relax_all(eff: Seq<Option<DepKind>>, es: Seq<(usize, usize, DepKind)>) -> Seq<Option<DepKind>>
    decreases es.len(),
{
    if es.len() == 0 {
        eff
    } else {
        relax_edge(relax_all(eff, es.drop_last()), es.last())
    }
}

/// Idempotence of the kind resolver: once every edge is settled, a further
/// relaxation pass over the edges changes nothing.
pub proof fn law_relaxation_idempotent(es: Seq<(usize, usize, DepKind)>, eff: Seq<Option<DepKind>>)
    requires
        kinds_closed(es, eff),
    ensures
        relax_all(eff, es) == eff,
    decreases es.len(),
{
    if es.len() > 0 {
        let init = es.drop_last();
        assert forall|e: int| 0 <= e < init.len() implies #[trigger] edge_settled(eff, init[e]) by {
            assert(init[e] == es[e]);
        }
        law_relaxation_idempotent(init, eff);
        assert(edge_settled(eff, es[es.len() - 1]));
    }
}

/// Potential of a kind map: it drops with every promotion.
pub open spec fn potential(eff: Seq<Option<DepKind>>) -> nat {
    seq_sum(eff.map_values(|o: Option<DepKind>| (3 - level(o)) as nat))
}

proof fn lemma_promote_potential(eff: Seq<Option<DepKind>>, c: int, k: DepKind)
    requires
        0 <= c < eff.len(),
        level(eff[c]) < level(Some(k)),
    ensures
        potential(eff.update(c, Some(k))) < potential(eff),
{
    let f = |o: Option<DepKind>| (3 - level(o)) as nat;
    let m = eff.map_values(f);
    assert(eff.update(c, Some(k)).map_values(f) =~= m.update(c, f(Some(k))));
    lemma_sum_update(m, c, f(Some(k)));
}

/// Computes, for every node, the strongest dependency kind through which it is
/// reached from the root (node 0); `None` for a node that is not reached.
///
/// Level-by-level relaxation: the root starts as `Normal`; along an edge the
/// kind is the weaker of the edge's kind and the parent's; a child is promoted,
/// and queued for the next level, when that kind is stronger than what it holds.
/// The result is the strongest path from the root to each node: a node has a
/// kind exactly when some path reaches it, and that kind is the strength of
/// some path and at least that of every path.
pub fn build_dependency_kind_hashmap(graph: &PackageGraph) -> (eff: Vec<Option<DepKind>>)
    requires
        graph.wf(),
    ensures
        eff@.len() == graph.node_packages().len(),
        eff@[0] == Some(DepKind::Normal),
        kinds_closed(graph.edge_seq(), eff@),
        forall|c: int, p: Seq<int>|
            #[trigger] edge_path(graph.edge_seq(), 0, c, p) ==> eff@[c] is Some && path_strength(graph.edge_seq(), p).rank()
                <= eff@[c].unwrap().rank(),
        forall|c: int|
            0 <= c < eff@.len() && #[trigger] eff@[c] is Some ==> exists|p: Seq<int>|
                edge_path(graph.edge_seq(), 0, c, p) && path_strength(graph.edge_seq(), p) == eff@[c].unwrap(),
        relax_all(eff@, graph.edge_seq()) == eff@,
{
    let n = graph.node_count();
    let es = graph.edges();
    let adj = edges_by_endpoint(&es, n, false);
    let mut eff: Vec<Option<DepKind>> = Vec::new();
    let mut a: usize = 0;
    while a < n
        invariant
            a <= n,
            eff@.len() == a,
            forall|x: int| 0 <= x < a ==> eff@[x] is None,
        decreases n - a,
    {
        eff.push(None);
        a = a + 1;
    }
    eff.set(0, Some(DepKind::Normal));
    let mut current: Vec<usize> = Vec::new();
    current.push(0);
    let mut next: Vec<usize> = Vec::new();
    let ghost mut paths: Seq<Seq<int>> = Seq::new(n as nat, |i: int| Seq::<int>::empty());
    proof {
        assert forall|c: int| 0 <= c < eff@.len() && eff@[c] is Some implies edge_path(
            es@,
            0,
            c,
            #[trigger] paths[c],
        ) && path_strength(es@, paths[c]) == eff@[c].unwrap() by {
            assert(c == 0);
        }
        assert(current@[0] == 0);
        assert forall|e: int| 0 <= e < es@.len() implies #[trigger] edge_settled(eff@, es@[e])
            || current@.contains(es@[e].0) by {
            if es@[e].0 == 0 {
                assert(current@[0] == es@[e].0);
            }
        }
    }
    while current.len() > 0
        invariant
            n == eff@.len(),
            n == graph.node_packages().len(),
            es@ == graph.edge_seq(),
            edges_within(es@, n as nat),
            adj@.len() == n,
            forall|a2: int, t: int|
                0 <= a2 < n && 0 <= t < adj@[a2]@.len() ==> #[trigger] adj@[a2]@[t] < es@.len()
                    && near_end(es@[adj@[a2]@[t] as int], false) == a2,
            forall|e: int| 0 <= e < es@.len() ==> #[trigger] listed(adj@, es@, e, false),
            eff@[0] == Some(DepKind::Normal),
            witnessed(es@, eff@, paths),
                paths.len() == n,
            next@.len() == 0,
            forall|x: int| 0 <= x < current@.len() ==> #[trigger] current@[x] < n && eff@[current@[x] as int] is Some,
            forall|e: int|
                0 <= e < es@.len() ==> #[trigger] edge_settled(eff@, es@[e]) || current@.contains(es@[e].0),
        decreases potential(eff@) + if current@.len() > 0 { 1nat } else { 0nat },
    {
        let ghost pot0 = potential(eff@);
        assert(current@.subrange(0, current@.len() as int) =~= current@);
        let mut idx: usize = 0;
        while idx < current.len()
            invariant
                n == eff@.len(),
                edges_within(es@, n as nat),
                adj@.len() == n,
                forall|a2: int, t: int|
                    0 <= a2 < n && 0 <= t < adj@[a2]@.len() ==> #[trigger] adj@[a2]@[t] < es@.len()
                        && near_end(es@[adj@[a2]@[t] as int], false) == a2,
                forall|e: int| 0 <= e < es@.len() ==> #[trigger] listed(adj@, es@, e, false),
                eff@[0] == Some(DepKind::Normal),
                witnessed(es@, eff@, paths),
                paths.len() == n,
                idx <= current@.len(),
                forall|x: int| 0 <= x < current@.len() ==> #[trigger] current@[x] < n && eff@[current@[x] as int] is Some,
                forall|x: int| 0 <= x < next@.len() ==> #[trigger] next@[x] < n && eff@[next@[x] as int] is Some,
                potential(eff@) <= pot0,
                next@.len() > 0 ==> potential(eff@) < pot0,
                forall|e: int|
                    0 <= e < es@.len() ==> #[trigger] edge_settled(eff@, es@[e]) || current@.subrange(
                        idx as int,
                        current@.len() as int,
                    ).contains(es@[e].0) || next@.contains(es@[e].0),
            decreases current@.len() - idx,
        {
            let parent = current[idx];
            let kp = match eff[parent] {
                Some(k) => k,
                None => DepKind::Normal,
            };
            let row = &adj[parent];
            let mut t: usize = 0;
            while t < row.len()
                invariant
                    n == eff@.len(),
                    edges_within(es@, n as nat),
                    adj@.len() == n,
                    parent < n,
                    row == adj@[parent as int],
                    forall|a2: int, t2: int|
                        0 <= a2 < n && 0 <= t2 < adj@[a2]@.len() ==> #[trigger] adj@[a2]@[t2] < es@.len()
                            && near_end(es@[adj@[a2]@[t2] as int], false) == a2,
                    forall|e: int| 0 <= e < es@.len() ==> #[trigger] listed(adj@, es@, e, false),
                    eff@[0] == Some(DepKind::Normal),
                    eff@[parent as int] == Some(kp),
                    witnessed(es@, eff@, paths),
                paths.len() == n,
                    idx < current@.len(),
                    current@[idx as int] == parent,
                    t <= row@.len(),
                    forall|x: int| 0 <= x < current@.len() ==> #[trigger] current@[x] < n && eff@[current@[x] as int] is Some,
                    forall|x: int| 0 <= x < next@.len() ==> #[trigger] next@[x] < n && eff@[next@[x] as int] is Some,
                    potential(eff@) <= pot0,
                    next@.len() > 0 ==> potential(eff@) < pot0,
                    forall|t2: int| 0 <= t2 < t ==> #[trigger] edge_settled(eff@, es@[row@[t2] as int]) || next@.contains(parent),
                    forall|e: int|
                        0 <= e < es@.len() ==> #[trigger] edge_settled(eff@, es@[e]) || current@.subrange(
                            idx as int,
                            current@.len() as int,
                        ).contains(es@[e].0) || next@.contains(es@[e].0),
                decreases row@.len() - t,
            {
                let e = row[t];
                let (_, child, k) = es[e];
                let cand = k.weakest(&kp);
                let promote = match eff[child] {
                    None => true,
                    Some(kc) => cand.is_stronger_than(&kc),
                };
                if promote {
                    let ghost eff0 = eff@;
                    let ghost next0 = next@;
                    proof {
                        assert(candidate(eff0, es@[e as int]) == Some(cand));
                        lemma_path_push(es@, 0, paths[parent as int], e as int);
                        lemma_promote_potential(eff0, child as int, cand);
                    }
                    eff.set(child, Some(cand));
                    next.push(child);
                    proof {
                        let paths0 = paths;
                        paths = paths.update(child as int, paths0[parent as int].push(e as int));
                        assert forall|c: int| 0 <= c < eff@.len() && eff@[c] is Some implies edge_path(
                            es@,
                            0,
                            c,
                            #[trigger] paths[c],
                        ) && path_strength(es@, paths[c]) == eff@[c].unwrap() by {
                            if c != child {
                                assert(paths[c] == paths0[c]);
                                assert(eff@[c] == eff0[c]);
                            }
                        }
                    }
                    proof {
                        assert(child != 0);
                        assert(child != parent);
                        assert forall|e2: int| 0 <= e2 < es@.len() implies #[trigger] edge_settled(eff@, es@[e2])
                            || current@.subrange(idx as int, current@.len() as int).contains(es@[e2].0)
                            || next@.contains(es@[e2].0) by {
                            if edge_settled(eff0, es@[e2]) && es@[e2].0 != child {
                                assert(level(eff0[es@[e2].1 as int]) <= level(eff@[es@[e2].1 as int]));
                            } else if es@[e2].0 == child {
                                assert(next@[next0.len() as int] == child);
                            } else if next0.contains(es@[e2].0) {
                                let w = choose|w: int| 0 <= w < next0.len() && next0[w] == es@[e2].0;
                                assert(next@[w] == next0[w]);
                            }
                        }
                        assert forall|t2: int| 0 <= t2 < t + 1 implies #[trigger] edge_settled(eff@, es@[row@[t2] as int])
                            || next@.contains(parent) by {
                            let x = es@[row@[t2] as int];
                            assert(x.0 == parent);
                            if t2 < t {
                                if next0.contains(parent) {
                                    let w = choose|w: int| 0 <= w < next0.len() && next0[w] == parent;
                                    assert(next@[w] == next0[w]);
                                } else {
                                    assert(edge_settled(eff0, es@[row@[t2] as int]));
                                    assert(eff@[parent as int] == eff0[parent as int]);
                                    assert(level(eff0[x.1 as int]) <= level(eff@[x.1 as int]));
                                }
                            } else {
                                assert(row@[t2] == e);
                                assert(eff@[parent as int] == Some(kp));
                                assert(edge_settled(eff@, es@[e as int]));
                            }
                        }
                    }
                } else {
                    proof {
                        assert(edge_settled(eff@, es@[e as int]));
                    }
                }
                t = t + 1;
            }
            proof {
                let tail0 = current@.subrange(idx as int, current@.len() as int);
                let tail1 = current@.subrange(idx + 1, current@.len() as int);
                assert forall|e: int| 0 <= e < es@.len() implies #[trigger] edge_settled(eff@, es@[e])
                    || tail1.contains(es@[e].0) || next@.contains(es@[e].0) by {
                    if !edge_settled(eff@, es@[e]) && !next@.contains(es@[e].0) {
                        let w = choose|w: int| 0 <= w < tail0.len() && tail0[w] == es@[e].0;
                        if w == 0 {
                            assert(es@[e].0 == parent);
                            assert(listed(adj@, es@, e, false));
                            let t2 = choose|t2: int| 0 <= t2 < adj@[parent as int]@.len() && #[trigger] adj@[parent as int]@[t2] == e;
                            assert(edge_settled(eff@, es@[row@[t2] as int]) || next@.contains(parent));
                        } else {
                            assert(tail1[w - 1] == tail0[w]);
                        }
                    }
                }
            }
            idx = idx + 1;
        }
        proof {
            assert forall|e: int| 0 <= e < es@.len() implies #[trigger] edge_settled(eff@, es@[e])
                || next@.contains(es@[e].0) by {
                let tail = current@.subrange(idx as int, current@.len() as int);
                assert(tail.len() == 0);
                if tail.contains(es@[e].0) {
                    let w = choose|w: int| 0 <= w < tail.len() && tail[w] == es@[e].0;
                }
            }
        }
        current = next;
        next = Vec::new();
    }
    proof {
        assert forall|e: int| 0 <= e < es@.len() implies #[trigger] edge_settled(eff@, es@[e]) by {
            if current@.contains(es@[e].0) {
                let w = choose|w: int| 0 <= w < current@.len() && current@[w] == es@[e].0;
            }
        }
        law_relaxation_idempotent(es@, eff@);
        assert forall|c: int, p: Seq<int>| #[trigger] edge_path(es@, 0, c, p) implies eff@[c] is Some && path_strength(
            es@,
            p,
        ).rank() <= eff@[c].unwrap().rank() by {
            lemma_path_bound(es@, eff@, c, p);
        }
        assert forall|c: int| 0 <= c < eff@.len() && #[trigger] eff@[c] is Some implies exists|p: Seq<int>|
            edge_path(es@, 0, c, p) && path_strength(es@, p) == eff@[c].unwrap() by {
            assert(edge_path(es@, 0, c, paths[c]));
        }
    }
    eff
}

} // verus!
