//! Properties that relate several operations of the aligner.
use vstd::prelude::*;
use crate::graph::{edge_list, is_acyclic, is_topo_walk, node_syms, ranks_up, sources_into, POAGraph};
use crate::poa::{
    fill_cols, dp_cell, best_pred, open_row, init_rows, sub_score,
    incorporate, incorporated, LinkState, bump, op_fits, IncState, last_of, dp_rows, Poa,
    back_chain, best_in, chain_edges, cons_table, consensus_of, has_edge, last_max, pair_weight,
    syms_of, Best,
};
use crate::traceback::{
    alignment_of, cell, cell_at, fresh_cells, reversed, root_cells, sat, set_rows, trace_back, walk_fuel,
    AlignmentOperation, RowModel, Traceback, MIN_SCORE,
};
use crate::graph::topo_order;

verus! {

/// Edge `e` goes from node `e` to node `e + 1`, for each of the `n - 1` edges.
pub open spec fn is_chain(n: int, edges: Seq<(usize, usize, i32)>) -> bool {
    &&& edges.len() == n - 1
    &&& forall|e: int| 0 <= e < edges.len() ==> (#[trigger] edges[e]).0 == e && edges[e].1 == e + 1
}

proof fn lemma_chain_acyclic(n: int, edges: Seq<(usize, usize, i32)>)
    requires
        1 <= n < usize::MAX,
        is_chain(n, edges),
    ensures
        is_acyclic(edges),
{
    let rank = |v: usize| v as int;
    assert(ranks_up(edges, rank));
}

/// Every topological walk of a chain visits its nodes in index order.
proof fn lemma_chain_order(n: int, edges: Seq<(usize, usize, i32)>, order: Seq<usize>, t: int)
    requires
        1 <= n < usize::MAX,
        is_chain(n, edges),
        is_topo_walk(n, edges, order),
        0 <= t <= n,
    ensures
        order.len() == n,
        forall|x: int| 0 <= x < t ==> order[x] == x,
    decreases t,
{
    lemma_chain_acyclic(n, edges);
    if t > 0 {
        lemma_chain_order(n, edges, order, t - 1);
        let v = order[t - 1];
        assert(v < n);
        if (v as int) < t - 1 {
            assert(order[v as int] == v);
        }
        if (v as int) > t - 1 {
            let e = v - 1;
            assert(edges[e].1 == order[t - 1]);
            let k2 = choose|k2: int| 0 <= k2 < t - 1 && order[k2] == edges[e].0;
            assert(order[k2] == k2);
        }
    }
}

proof fn lemma_chain_sources(m: int, edges: Seq<(usize, usize, i32)>, v: usize)
    requires
        1 <= m < usize::MAX,
        is_chain(m, edges),
    ensures
        sources_into(edges, v) == if 1 <= v <= m - 1 {
            seq![(v - 1) as usize]
        } else {
            Seq::<usize>::empty()
        },
    decreases m,
{
    if m == 1 {
        assert(edges.len() == 0);
    } else {
        let rest = edges.drop_last();
        assert(is_chain(m - 1, rest)) by {
            assert forall|e: int| 0 <= e < rest.len() implies (#[trigger] rest[e]).0 == e && rest[e].1 == e + 1 by {
                assert(rest[e] == edges[e]);
            }
        }
        lemma_chain_sources(m - 1, rest, v);
        assert(edges.last() == edges[m - 2]);
        if v == m - 1 {
            assert(sources_into(edges, v) =~= seq![(v - 1) as usize]);
        }
    }
}

/// On a chain, a topological walk is the identity and each node's predecessor
/// list is the node before it.
proof fn lemma_chain_walk(g: POAGraph, order: Seq<usize>)
    requires
        0 < node_syms(g).len() < usize::MAX,
        is_chain(node_syms(g).len() as int, edge_list(g)),
        is_topo_walk(node_syms(g).len() as int, edge_list(g), order),
        forall|t: int|
            0 <= t < order.len() ==> (#[trigger] crate::graph::incoming_of(g, order[t])).to_multiset()
                == sources_into(edge_list(g), order[t]).to_multiset(),
    ensures
        order.len() == node_syms(g).len(),
        forall|x: int| 0 <= x < order.len() ==> order[x] == x,
        forall|x: int|
            0 <= x < node_syms(g).len() ==> #[trigger] crate::graph::incoming_of(g, x as usize) == if x == 0 {
                Seq::<usize>::empty()
            } else {
                seq![(x - 1) as usize]
            },
{
    let n = node_syms(g).len() as int;
    lemma_chain_order(n, edge_list(g), order, n);
    assert forall|x: int| 0 <= x < n implies #[trigger] crate::graph::incoming_of(g, x as usize) == if x == 0 {
        Seq::<usize>::empty()
    } else {
        seq![(x - 1) as usize]
    } by {
        assert(order[x] == x);
        lemma_chain_sources(n, edge_list(g), x as usize);
        lemma_multiset_small(crate::graph::incoming_of(g, order[x]), sources_into(edge_list(g), order[x]));
    }
}

proof fn lemma_multiset_small(s: Seq<usize>, t: Seq<usize>)
    requires
        s.to_multiset() == t.to_multiset(),
        t.len() <= 1,
    ensures
        s == t,
{
    s.to_multiset_ensures();
    t.to_multiset_ensures();
    assert(s.len() == t.len());
    if t.len() == 1 {
        assert(s.contains(s[0]));
        assert(s.to_multiset().count(s[0]) > 0);
        assert(t.contains(s[0]));
        assert(s =~= t);
    } else {
        assert(s =~= t);
    }
}

/// The consensus entry of node `v` in a chain.
spec fn chain_entry(v: int) -> Best {
    if v == 0 {
        (0i32, 0i32, usize::MAX)
    } else {
        (1i32, sat(v), (v - 1) as usize)
    }
}

proof fn lemma_chain_table(g: POAGraph, order: Seq<usize>, n: int, t: int)
    requires
        1 <= n < usize::MAX,
        node_syms(g).len() == n,
        edge_list(g) == chain_edges(n),
        order.len() == n,
        forall|x: int| 0 <= x < n ==> order[x] == x,
        forall|x: int|
            0 <= x < n ==> #[trigger] crate::graph::incoming_of(g, x as usize) == if x == 0 {
                Seq::<usize>::empty()
            } else {
                seq![(x - 1) as usize]
            },
        0 <= t <= n,
    ensures
        cons_table(g, order, t).len() == n,
        forall|v: int| 0 <= v < t ==> #[trigger] cons_table(g, order, t)[v] == chain_entry(v),
        forall|v: int| t <= v < n ==> #[trigger] cons_table(g, order, t)[v] == (0i32, 0i32, 0usize),
    decreases t,
{
    if t > 0 {
        lemma_chain_table(g, order, n, t - 1);
        let prev = cons_table(g, order, t - 1);
        let v = order[t - 1];
        assert(v == t - 1);
        let preds = crate::graph::incoming_of(g, v);
        let x = t - 1;
        assert(crate::graph::incoming_of(g, x as usize) == if x == 0 {
            Seq::<usize>::empty()
        } else {
            seq![(x - 1) as usize]
        });
        let edges = edge_list(g);
        if v > 0 {
            assert(preds == seq![(v - 1) as usize]);
            assert(edges[v - 1] == ((v - 1) as usize, v, 1i32));
            let k = (v - 1) as int;
            assert(0 <= k < edges.len() && edges[k].0 == (v - 1) as usize && edges[k].1 == v);
            assert(has_edge(edges, (v - 1) as usize, v));
            assert(pair_weight(edges, (v - 1) as usize, v) == 1);
            assert(prev[v - 1] == chain_entry(v - 1));
            let b = best_in(edges, prev, preds, v, 1);
            assert(best_in(edges, prev, preds, v, 0) == (0i32, 0i32, usize::MAX));
            assert(b == chain_entry(v as int));
        } else {
            assert(preds.len() == 0);
        }
    }
}

proof fn lemma_last_max(table: Seq<Best>, k: int)
    requires
        1 <= k <= table.len(),
        forall|v: int| 0 <= v < table.len() ==> (#[trigger] table[v]).1 == sat(v),
    ensures
        last_max(table, k) == k - 1,
    decreases k,
{
    if k > 1 {
        lemma_last_max(table, k - 1);
        assert(table[k - 1].1 == sat(k - 1));
        assert(table[k - 2].1 == sat(k - 2));
    }
}

proof fn lemma_back_chain(table: Seq<Best>, p: int, fuel: nat)
    requires
        table.len() < usize::MAX,
        0 <= p < table.len(),
        fuel >= p + 1,
        forall|v: int| 0 <= v < table.len() ==> #[trigger] table[v] == chain_entry(v),
    ensures
        back_chain(table, p, fuel) == Seq::new((p + 1) as nat, |k: int| (p - k) as usize),
    decreases p,
{
    if p == 0 {
        assert(table[0] == chain_entry(0));
        assert(back_chain(table, usize::MAX as int, (fuel - 1) as nat) == Seq::<usize>::empty());
        assert(back_chain(table, p, fuel) =~= Seq::new((p + 1) as nat, |k: int| (p - k) as usize));
    } else {
        assert(table[p] == chain_entry(p));
        lemma_back_chain(table, p - 1, (fuel - 1) as nat);
        assert(back_chain(table, p, fuel) =~= Seq::new((p + 1) as nat, |k: int| (p - k) as usize));
    }
}

/// A graph built as a chain, with no query merged yet, has that chain as its
/// consensus, for any topological walk of it.
pub proof fn lemma_chain_consensus(g: POAGraph, order: Seq<usize>)
    requires
        0 < node_syms(g).len() < usize::MAX,
        edge_list(g) == chain_edges(node_syms(g).len() as int),
        is_topo_walk(node_syms(g).len() as int, edge_list(g), order),
        forall|t: int|
            0 <= t < order.len() ==> (#[trigger] crate::graph::incoming_of(g, order[t])).to_multiset()
                == sources_into(edge_list(g), order[t]).to_multiset(),
    ensures
        consensus_of(g, order) == node_syms(g),
{
    let n = node_syms(g).len() as int;
    assert(is_chain(n, edge_list(g)));
    lemma_chain_walk(g, order);
    lemma_chain_table(g, order, n, n);
    let table = cons_table(g, order, n);
    assert forall|v: int| 0 <= v < table.len() implies (#[trigger] table[v]).1 == sat(v) by {
        assert(table[v] == chain_entry(v));
    }
    lemma_last_max(table, n);
    lemma_back_chain(table, n - 1, n as nat);
    let chain = back_chain(table, n - 1, n as nat);
    assert(consensus_of(g, order) == reversed(syms_of(g, chain)));
    assert(reversed(syms_of(g, chain)) =~= node_syms(g));
}

/// The operations that match a chain of `n` nodes node for node.
pub open spec fn self_path_ops(n: int) -> Seq<AlignmentOperation> {
    Seq::new(
        n as nat,
        |k: int|
            if k == 0 {
                AlignmentOperation::Match(None)
            } else {
                AlignmentOperation::Match(Some(((k - 1) as usize, k as usize)))
            },
    )
}

/// The chain whose edge `e` weighs `ws[e]`.
pub open spec fn weighted_chain(ws: Seq<i32>) -> Seq<(usize, usize, i32)> {
    Seq::new(ws.len(), |e: int| (e as usize, (e + 1) as usize, ws[e]))
}

/// The weights raised by one, saturating.
pub open spec fn bumped(ws: Seq<i32>) -> Seq<i32> {
    ws.map_values(|w: i32| sat(w + 1))
}

proof fn lemma_self_merge_steps(r: Seq<u8>, ws: Seq<i32>, k: int)
    requires
        1 <= r.len() < usize::MAX,
        ws.len() == r.len() - 1,
        1 <= k <= r.len(),
    ensures
        incorporate((r, weighted_chain(ws), 0usize, 0, LinkState::Linked), self_path_ops(r.len() as int), r, 0, k) == (
            r,
            weighted_chain(Seq::new(ws.len(), |e: int| if e < k - 1 { sat(ws[e] + 1) } else { ws[e] })),
            (k - 1) as usize,
            k,
            LinkState::Linked,
        ),
    decreases k,
{
    let n = r.len() as int;
    let ops = self_path_ops(n);
    let st0: IncState = (r, weighted_chain(ws), 0usize, 0, LinkState::Linked);
    if k == 1 {
        assert(incorporate(st0, ops, r, 0, 0) == st0);
        assert(ops[0] == AlignmentOperation::Match(None));
        assert(weighted_chain(Seq::new(ws.len(), |e: int| if e < 0 { sat(ws[e] + 1) } else { ws[e] }))
            =~= weighted_chain(ws));
    } else {
        lemma_self_merge_steps(r, ws, k - 1);
        let before = Seq::new(ws.len(), |e: int| if e < k - 2 { sat(ws[e] + 1) } else { ws[e] });
        let after = Seq::new(ws.len(), |e: int| if e < k - 1 { sat(ws[e] + 1) } else { ws[e] });
        let edges = weighted_chain(before);
        let st = incorporate(st0, ops, r, 0, k - 1);
        let op = ops[k - 1];
        assert(op == AlignmentOperation::Match(Some(((k - 2) as usize, (k - 1) as usize))));
        assert(op_fits(st, op, r));
        let e = k - 2;
        assert(edges[e].0 == (k - 2) as usize && edges[e].1 == (k - 1) as usize);
        assert(has_edge(edges, (k - 2) as usize, (k - 1) as usize));
        assert(bump(edges, (k - 2) as usize, (k - 1) as usize) =~= weighted_chain(after));
    }
}

/// Merging a chain's own symbols along the path that matches it node for node
/// adds no node and no edge, and raises the weight of every edge by one
/// (saturating): the graph is the same chain with bumped weights.
pub proof fn lemma_self_merge(g: POAGraph, ws: Seq<i32>)
    requires
        0 < node_syms(g).len() < usize::MAX,
        ws.len() == node_syms(g).len() - 1,
        edge_list(g) == weighted_chain(ws),
        is_topo_walk(node_syms(g).len() as int, edge_list(g), topo_order(g)),
    ensures
        incorporated(g, self_path_ops(node_syms(g).len() as int), node_syms(g)) == (
            node_syms(g),
            weighted_chain(bumped(ws)),
        ),
{
    let r = node_syms(g);
    let n = r.len() as int;
    assert(is_chain(n, edge_list(g)));
    lemma_chain_order(n, edge_list(g), topo_order(g), n);
    assert(topo_order(g)[0] == 0);
    lemma_self_merge_steps(r, ws, n);
    assert(Seq::new(ws.len(), |e: int| if e < n - 1 { sat(ws[e] + 1) } else { ws[e] }) =~= bumped(ws));
}

/// Filling the matrix and reading the alignment back is deterministic: two
/// matrices that both meet the contract of `custom` for the same graph and query
/// give the same alignment, score and operations alike.
pub proof fn lemma_alignment_deterministic(p: Poa, q: Seq<u8>, t1: Traceback, t2: Traceback)
    requires
        t1.cols == q.len() && t2.cols == q.len(),
        t1.last == last_of(topo_order(p.graph)) && t2.last == last_of(topo_order(p.graph)),
        t1.model() == dp_rows(p.graph, topo_order(p.graph), q, p.scores(), topo_order(p.graph).len() as int),
        t2.model() == dp_rows(p.graph, topo_order(p.graph), q, p.scores(), topo_order(p.graph).len() as int),
    ensures
        alignment_of(t1.model(), t1.last as int, t1.cols as int) == alignment_of(
            t2.model(),
            t2.last as int,
            t2.cols as int,
        ),
{
}

/// The most a chain prefix of `a` nodes can score against a query prefix of `j`
/// symbols: a match per aligned pair, a gap per unpaired symbol.
pub open spec fn ub(ms: int, gap: int, a: int, j: int) -> int {
    if a <= j {
        ms * a + gap * (j - a)
    } else {
        ms * j + gap * (a - j)
    }
}

/// A match scores above zero, a gap below zero, a mismatch no more than a match,
/// and no path of `n` steps nears the unreachable score.
pub open spec fn self_scores_ok(sc: (i32, i32, i32), n: int) -> bool {
    sc.0 > 0 && sc.2 < 0 && sc.1 <= sc.0 && n * (sc.0 - sc.2) < 400_000_000
}

proof fn lemma_ub(ms: int, gap: int, n: int, a: int, j: int)
    requires
        ms > 0,
        gap < 0,
        n >= 1,
        n * (ms - gap) < 400_000_000,
        0 <= a <= n,
        0 <= j <= n,
    ensures
        -400_000_000 < ub(ms, gap, a, j) < 400_000_000,
        a >= 1 && j >= 1 ==> ub(ms, gap, a - 1, j - 1) + ms == ub(ms, gap, a, j),
        a >= 1 ==> ub(ms, gap, a - 1, j) + gap <= ub(ms, gap, a, j),
        j >= 1 ==> ub(ms, gap, a, j - 1) + gap <= ub(ms, gap, a, j),
        a >= 1 ==> ub(ms, gap, a - 1, a) + gap < ms * a,
        a >= 1 ==> ub(ms, gap, a, a - 1) + gap < ms * a,
        ub(ms, gap, a, a) == ms * a,
        ub(ms, gap, 0, j) == gap * j,
        ub(ms, gap, a, 0) == gap * a,
{
    let m = if a <= j { a } else { j };
    let d = if a <= j { j - a } else { a - j };
    assert(0 <= ms * m <= ms * n) by (nonlinear_arith)
        requires
            ms > 0,
            0 <= m <= n,
    ;
    assert(gap * n <= gap * d <= 0) by (nonlinear_arith)
        requires
            gap < 0,
            0 <= d <= n,
    ;
    assert(ms * n <= n * (ms - gap) && -(n * (ms - gap)) <= gap * n) by (nonlinear_arith)
        requires
            ms > 0,
            gap < 0,
            n >= 1,
    ;
    assert(ub(ms, gap, a, j) == ms * m + gap * d);
    assert(ms * (a - 1) + ms == ms * a && ms * (j - 1) + ms == ms * j) by (nonlinear_arith);
    assert(gap * (j - a + 1) == gap * (j - a) + gap && gap * (a - j + 1) == gap * (a - j) + gap) by (nonlinear_arith);
    assert(gap * (j - a - 1) + gap == gap * (j - a) && gap * (a - j - 1) + gap == gap * (a - j)) by (nonlinear_arith);
    assert(gap * 1 == gap && gap * 0 == 0 && ms * 0 == 0) by (nonlinear_arith);
}

proof fn lemma_sat_le(x: int, u: int)
    requires
        x <= u,
        i32::MIN <= u <= i32::MAX,
    ensures
        sat(x) <= u,
        i32::MIN <= x ==> sat(x) == x,
{
}

/// The operation on the diagonal cell of row `a` when a chain meets its own symbols.
pub open spec fn diag_op(a: int) -> AlignmentOperation {
    if a == 1 {
        AlignmentOperation::Match(None)
    } else {
        AlignmentOperation::Match(Some(((a - 2) as usize, (a - 1) as usize)))
    }
}

spec fn rows_shape(rows: Seq<RowModel>, sc: (i32, i32, i32), n: int, k: int) -> bool {
    &&& rows.len() == n + 1
    &&& rows[0] == (root_cells(n, sc.2), 0usize, (n + 1) as usize)
    &&& forall|a: int|
        1 <= a <= n ==> (#[trigger] rows[a]).1 == 0 && rows[a].2 == n + 1 && (if a <= k {
            rows[a].0.len() == n + 2
        } else {
            rows[a].0.len() == 0
        })
}

spec fn rows_bounded(rows: Seq<RowModel>, sc: (i32, i32, i32), n: int) -> bool {
    forall|a: int, j: int|
        0 <= a <= n && 0 <= j <= n ==> #[trigger] cell_at(rows, a, j).score <= ub(sc.0 as int, sc.2 as int, a, j)
}

spec fn rows_diag(rows: Seq<RowModel>, sc: (i32, i32, i32), k: int) -> bool {
    forall|a: int| 1 <= a <= k ==> #[trigger] cell_at(rows, a, a) == cell((sc.0 * a) as i32, diag_op(a))
}

proof fn lemma_cell(
    r1: Seq<RowModel>,
    preds: Seq<usize>,
    v: usize,
    sym: u8,
    q: Seq<u8>,
    sc: (i32, i32, i32),
    n: int,
    j: int,
)
    requires
        n >= 1,
        self_scores_ok(sc, n),
        q.len() == n,
        v < n,
        sym == q[v as int],
        preds == if v == 0 {
            Seq::<usize>::empty()
        } else {
            seq![(v - 1) as usize]
        },
        rows_shape(r1, sc, n, v + 1),
        rows_bounded(r1, sc, n),
        rows_diag(r1, sc, v as int),
        1 <= j <= n,
    ensures
        dp_cell(r1, preds, v, j, sym, q[j - 1], sc).score <= ub(sc.0 as int, sc.2 as int, v + 1, j),
        j == v + 1 ==> dp_cell(r1, preds, v, j, sym, q[j - 1], sc) == cell((sc.0 * (v + 1)) as i32, diag_op(v + 1)),
{
    let ms = sc.0 as int;
    let gap = sc.2 as int;
    let a = v + 1;
    let c = dp_cell(r1, preds, v, j, sym, q[j - 1], sc);
    lemma_ub(ms, gap, n, a, j);
    lemma_ub(ms, gap, n, a, j - 1);
    lemma_ub(ms, gap, n, a - 1, j);
    lemma_ub(ms, gap, n, a - 1, j - 1);
    lemma_ub(ms, gap, n, 0, j - 1);
    let s = sub_score(sym, q[j - 1], sc.0, sc.1);
    assert(s <= ms);
    let u = ub(ms, gap, a as int, j);
    assert(cell_at(r1, a as int, j - 1).score <= ub(ms, gap, a as int, j - 1));
    let ins_x = cell_at(r1, a as int, j - 1).score + gap;
    lemma_sat_le(ins_x, u);
    if v == 0 {
        assert(cell_at(r1, 0, j - 1).score <= ub(ms, gap, 0, j - 1));
        assert(cell_at(r1, 0, j).score <= ub(ms, gap, 0, j));
        lemma_sat_le(cell_at(r1, 0, j - 1).score + s, u);
        lemma_sat_le(cell_at(r1, 0, j).score + gap, u);
    } else {
        assert(cell_at(r1, a - 1, j - 1).score <= ub(ms, gap, a - 1, j - 1));
        assert(cell_at(r1, a - 1, j).score <= ub(ms, gap, a - 1, j));
        lemma_sat_le(cell_at(r1, a - 1, j - 1).score + s, u);
        lemma_sat_le(cell_at(r1, a - 1, j).score + gap, u);
        assert(MIN_SCORE <= u);
        assert(best_pred(r1, preds, 0, v, j, s, sc.2).score == MIN_SCORE);
        assert(best_pred(r1, preds, 1, v, j, s, sc.2).score <= u);
    }
    if j == a {
        assert(ms * a <= i32::MAX);
        assert(s == ms);
        lemma_sat_le(ins_x, ms * a - 1);
        if v == 0 {
            lemma_sat_le(cell_at(r1, 0, j).score + gap, ms * a - 1);
            assert(r1[0].0 == root_cells(n, sc.2));
            assert(r1[0].0[0] == cell(0, AlignmentOperation::Match(None)));
            assert(cell_at(r1, 0, 0).score == 0);
        } else {
            assert(cell_at(r1, a - 1, a - 1) == cell((sc.0 * (a - 1)) as i32, diag_op(a - 1)));
            assert(ms * (a - 1) + ms == ms * a) by (nonlinear_arith);
            lemma_sat_le(cell_at(r1, a - 1, j).score + gap, ms * a - 1);
        }
    }
}

proof fn lemma_set_cell(r1: Seq<RowModel>, sc: (i32, i32, i32), n: int, k: int, a: int, j: int, c: crate::traceback::TracebackCell)
    requires
        n >= 1,
        rows_shape(r1, sc, n, k),
        1 <= a <= k <= n,
        1 <= j <= n,
    ensures
        rows_shape(set_rows(r1, a, j, c), sc, n, k),
        forall|a2: int, j2: int|
            0 <= a2 <= n && 0 <= j2 <= n ==> #[trigger] cell_at(set_rows(r1, a, j, c), a2, j2) == if a2 == a && j2
                == j {
                c
            } else {
                cell_at(r1, a2, j2)
            },
{
    let r = set_rows(r1, a, j, c);
    assert(r1[a].1 == 0 && r1[a].2 == n + 1 && r1[a].0.len() == n + 2);
    assert(r == r1.update(a, (r1[a].0.update(j, c), r1[a].1, r1[a].2)));
    assert forall|a2: int, j2: int| 0 <= a2 <= n && 0 <= j2 <= n implies #[trigger] cell_at(r, a2, j2) == if a2 == a
        && j2 == j {
        c
    } else {
        cell_at(r1, a2, j2)
    } by {
        if a2 == a {
            assert(r[a2].0 == r1[a2].0.update(j, c));
        }
    }
    assert forall|a2: int| 1 <= a2 <= n implies (#[trigger] r[a2]).1 == 0 && r[a2].2 == n + 1 && (if a2 <= k {
        r[a2].0.len() == n + 2
    } else {
        r[a2].0.len() == 0
    }) by {
        assert(r1[a2].1 == 0);
    }
}

proof fn lemma_fill(
    rows0: Seq<RowModel>,
    preds: Seq<usize>,
    v: usize,
    sym: u8,
    q: Seq<u8>,
    sc: (i32, i32, i32),
    n: int,
    j: int,
)
    requires
        n >= 1,
        self_scores_ok(sc, n),
        q.len() == n,
        v < n,
        sym == q[v as int],
        preds == if v == 0 {
            Seq::<usize>::empty()
        } else {
            seq![(v - 1) as usize]
        },
        rows_shape(rows0, sc, n, v + 1),
        rows_bounded(rows0, sc, n),
        rows_diag(rows0, sc, v as int),
        0 <= j <= n,
    ensures
        rows_shape(fill_cols(rows0, preds, v, sym, q, sc, j), sc, n, v + 1),
        rows_bounded(fill_cols(rows0, preds, v, sym, q, sc, j), sc, n),
        rows_diag(fill_cols(rows0, preds, v, sym, q, sc, j), sc, v as int),
        j >= v + 1 ==> cell_at(fill_cols(rows0, preds, v, sym, q, sc, j), v + 1, v + 1) == cell(
            (sc.0 * (v + 1)) as i32,
            diag_op(v + 1),
        ),
    decreases j,
{
    if j > 0 {
        lemma_fill(rows0, preds, v, sym, q, sc, n, j - 1);
        let a = v + 1;
        let r1 = fill_cols(rows0, preds, v, sym, q, sc, j - 1);
        let c = dp_cell(r1, preds, v, j, sym, q[j - 1], sc);
        lemma_cell(r1, preds, v, sym, q, sc, n, j);
        lemma_set_cell(r1, sc, n, a as int, a as int, j, c);
        let r = set_rows(r1, a as int, j, c);
        assert(r == fill_cols(rows0, preds, v, sym, q, sc, j));
        assert forall|a2: int, j2: int| 0 <= a2 <= n && 0 <= j2 <= n implies #[trigger] cell_at(r, a2, j2).score
            <= ub(sc.0 as int, sc.2 as int, a2, j2) by {
            assert(cell_at(r1, a2, j2).score <= ub(sc.0 as int, sc.2 as int, a2, j2));
        }
        assert forall|a2: int| 1 <= a2 <= v implies #[trigger] cell_at(r, a2, a2) == cell((sc.0 * a2) as i32, diag_op(a2)) by {
            assert(cell_at(r1, a2, a2) == cell((sc.0 * a2) as i32, diag_op(a2)));
        }
        if j > a {
            assert(cell_at(r, a as int, a as int) == cell_at(r1, a as int, a as int));
        }
    }
}

proof fn lemma_dp_chain(g: POAGraph, order: Seq<usize>, q: Seq<u8>, sc: (i32, i32, i32), k: int)
    requires
        0 < node_syms(g).len() < usize::MAX,
        self_scores_ok(sc, node_syms(g).len() as int),
        q == node_syms(g),
        order.len() == node_syms(g).len(),
        forall|x: int| 0 <= x < order.len() ==> order[x] == x,
        forall|x: int|
            0 <= x < node_syms(g).len() ==> #[trigger] crate::graph::incoming_of(g, x as usize) == if x == 0 {
                Seq::<usize>::empty()
            } else {
                seq![(x - 1) as usize]
            },
        0 <= k <= node_syms(g).len(),
    ensures
        rows_shape(dp_rows(g, order, q, sc, k), sc, node_syms(g).len() as int, k),
        rows_bounded(dp_rows(g, order, q, sc, k), sc, node_syms(g).len() as int),
        rows_diag(dp_rows(g, order, q, sc, k), sc, k),
    decreases k,
{
    let n = node_syms(g).len() as int;
    let ms = sc.0 as int;
    let gap = sc.2 as int;
    if k == 0 {
        let rows = dp_rows(g, order, q, sc, 0);
        assert(rows == init_rows(n, n, sc.2));
        assert forall|a: int, j: int| 0 <= a <= n && 0 <= j <= n implies #[trigger] cell_at(rows, a, j).score <= ub(
            ms,
            gap,
            a,
            j,
        ) by {
            lemma_ub(ms, gap, n, a, j);
            if a == 0 {
                assert(rows[0].0 == root_cells(n, sc.2));
                if j > 0 {
                    lemma_sat_le(j * gap, ub(ms, gap, 0, j));
                }
            }
        }
    } else {
        lemma_dp_chain(g, order, q, sc, k - 1);
        let prev = dp_rows(g, order, q, sc, k - 1);
        let v = order[k - 1];
        assert(v == k - 1);
        let opened = open_row(prev, v + 1, n, sc.2);
        assert(prev[k].0.len() == 0);
        assert(opened[k].0 == fresh_cells(k, n + 1, sc.2, 0));
        assert forall|a: int| 1 <= a <= n implies (#[trigger] opened[a]).1 == 0 && opened[a].2 == n + 1 && (if a <= k {
            opened[a].0.len() == n + 2
        } else {
            opened[a].0.len() == 0
        }) by {
            assert(prev[a].1 == 0);
        }
        assert forall|a: int, j: int| 0 <= a <= n && 0 <= j <= n implies #[trigger] cell_at(opened, a, j).score <= ub(
            ms,
            gap,
            a,
            j,
        ) by {
            lemma_ub(ms, gap, n, a, j);
            if a == k {
                if j == 0 {
                    lemma_sat_le(k * gap, ub(ms, gap, a, 0));
                }
            } else {
                assert(cell_at(prev, a, j).score <= ub(ms, gap, a, j));
            }
        }
        assert forall|a: int| 1 <= a <= k - 1 implies #[trigger] cell_at(opened, a, a) == cell((sc.0 * a) as i32, diag_op(a)) by {
            assert(cell_at(prev, a, a) == cell((sc.0 * a) as i32, diag_op(a)));
        }
        let x = k - 1;
        assert(crate::graph::incoming_of(g, x as usize) == if x == 0 {
            Seq::<usize>::empty()
        } else {
            seq![(x - 1) as usize]
        });
        lemma_fill(opened, crate::graph::incoming_of(g, v), v, node_syms(g)[v as int], q, sc, n, n);
    }
}

proof fn lemma_trace_diag(rows: Seq<RowModel>, sc: (i32, i32, i32), n: int, a: int, fuel: nat)
    requires
        rows_diag(rows, sc, n),
        rows.len() == n + 1,
        0 <= a <= n,
        fuel >= a,
    ensures
        trace_back(rows, a, a, fuel) == Seq::new(a as nat, |t: int| diag_op(a - t)),
    decreases a,
{
    if a == 0 {
        assert(trace_back(rows, a, a, fuel) =~= Seq::new(a as nat, |t: int| diag_op(a - t)));
    } else {
        assert(cell_at(rows, a, a).op == diag_op(a));
        lemma_trace_diag(rows, sc, n, a - 1, (fuel - 1) as nat);
        assert(trace_back(rows, a, a, fuel) =~= Seq::new(a as nat, |t: int| diag_op(a - t)));
    }
}

/// Aligning the symbols of a chain against the chain itself matches node for
/// node: the score is the match score once per symbol and the operations are the
/// all-match path, when a match scores above zero, a gap below zero, a mismatch no
/// more than a match, and the scores are small against the unreachable score.
pub proof fn lemma_self_alignment(g: POAGraph, sc: (i32, i32, i32))
    requires
        0 < node_syms(g).len() < usize::MAX,
        is_chain(node_syms(g).len() as int, edge_list(g)),
        is_topo_walk(node_syms(g).len() as int, edge_list(g), topo_order(g)),
        forall|t: int|
            0 <= t < topo_order(g).len() ==> (#[trigger] crate::graph::incoming_of(g, topo_order(g)[t])).to_multiset()
                == sources_into(edge_list(g), topo_order(g)[t]).to_multiset(),
        self_scores_ok(sc, node_syms(g).len() as int),
    ensures
        alignment_of(
            dp_rows(g, topo_order(g), node_syms(g), sc, topo_order(g).len() as int),
            last_of(topo_order(g)) as int,
            node_syms(g).len() as int,
        ) == ((sc.0 * node_syms(g).len()) as i32, self_path_ops(node_syms(g).len() as int)),
{
    let n = node_syms(g).len() as int;
    let order = topo_order(g);
    lemma_chain_walk(g, order);
    lemma_dp_chain(g, order, node_syms(g), sc, n);
    let rows = dp_rows(g, order, node_syms(g), sc, n);
    assert(last_of(order) == n - 1);
    lemma_trace_diag(rows, sc, n, n, walk_fuel(rows, n));
    assert(cell_at(rows, n, n) == cell((sc.0 * n) as i32, diag_op(n)));
    assert(reversed(Seq::new(n as nat, |t: int| diag_op(n - t))) =~= self_path_ops(n));
}

/// One round of aligning a chain's own symbols against it and merging the
/// alignment adds no node and raises the weight of every edge on the path by one:
/// the graph stays the same chain, so each further round adds one more.
pub proof fn lemma_self_round(g: POAGraph, ws: Seq<i32>, sc: (i32, i32, i32))
    requires
        0 < node_syms(g).len() < usize::MAX,
        ws.len() == node_syms(g).len() - 1,
        edge_list(g) == weighted_chain(ws),
        is_topo_walk(node_syms(g).len() as int, edge_list(g), topo_order(g)),
        forall|t: int|
            0 <= t < topo_order(g).len() ==> (#[trigger] crate::graph::incoming_of(g, topo_order(g)[t])).to_multiset()
                == sources_into(edge_list(g), topo_order(g)[t]).to_multiset(),
        self_scores_ok(sc, node_syms(g).len() as int),
    ensures
        incorporated(
            g,
            alignment_of(
                dp_rows(g, topo_order(g), node_syms(g), sc, topo_order(g).len() as int),
                last_of(topo_order(g)) as int,
                node_syms(g).len() as int,
            ).1,
            node_syms(g),
        ) == (node_syms(g), weighted_chain(bumped(ws))),
{
    assert(is_chain(node_syms(g).len() as int, weighted_chain(ws)));
    lemma_self_alignment(g, sc);
    lemma_self_merge(g, ws);
}

} // verus!
