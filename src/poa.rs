//! The partial-order aligner: the graph with its scores, the dynamic programme of
//! a query against the graph, incorporation of an alignment, and the consensus.
use vstd::prelude::*;
use crate::graph::{
    add_edge, add_node, edge_list, edge_weight, find_edge, graph_wf, graph_with_capacity, incoming,
    incoming_of, node_count, sources_into, node_symbol, node_syms, set_edge_weight, topo_order, topological_order,
    edges_wf, POAGraph,
};
use crate::lanes::{is_profile_symbol, lanes_after, lanes_model};
use crate::laws::{is_chain, lemma_chain_consensus, lemma_self_alignment, self_path_ops, self_scores_ok};
use crate::traceback::{
    alignment_of, cell, fresh_cells, reversed, empty_rows, root_cells, sat, sat_add, set_rows, cell_at, Alignment,
    AlignmentOperation, RowModel, Traceback, TracebackCell, MIN_SCORE,
};

verus! {

/// Score of aligning graph symbol `r` to query symbol `q`.
pub open spec fn sub_score(r: u8, q: u8, match_score: i32, mismatch_score: i32) -> i32 {
    if r == q {
        match_score
    } else {
        mismatch_score
    }
}

/// The best of the match and deletion candidates of the first `k` predecessors of
/// node `v` at column `j`; a candidate replaces the best only with a strictly
/// greater score, the match before the deletion.
pub open spec fn best_pred(
    rows: Seq<RowModel>,
    preds: Seq<usize>,
    k: int,
    v: usize,
    j: int,
    s: i32,
    gap_open: i32,
) -> TracebackCell
    decreases k,
{
    if k <= 0 {
        cell(MIN_SCORE, AlignmentOperation::Match(None))
    } else {
        let best = best_pred(rows, preds, k - 1, v, j, s, gap_open);
        let p = preds[k - 1];
        let m = cell(
            sat(cell_at(rows, p + 1, j - 1).score + s),
            AlignmentOperation::Match(Some((p, v))),
        );
        let d = cell(sat(cell_at(rows, p + 1, j).score + gap_open), AlignmentOperation::Del(Some((p, v))));
        let b1 = if m.score > best.score {
            m
        } else {
            best
        };
        if d.score > b1.score {
            d
        } else {
            b1
        }
    }
}

/// The cell of node `v` (row `v + 1`) at column `j >= 1`, for query symbol `qb`.
/// A node without predecessors has the root row as its one predecessor: a match
/// from column `j - 1` as `Match(None)`, and a deletion from column `j` as
/// `Xclip(0)`, which sends the walk back to the root row. An insertion wins over
/// the best predecessor candidate unless that one scores strictly more.
pub open spec fn dp_cell(
    rows: Seq<RowModel>,
    preds: Seq<usize>,
    v: usize,
    j: int,
    sym: u8,
    qb: u8,
    sc: (i32, i32, i32),
) -> TracebackCell {
    let s = sub_score(sym, qb, sc.0, sc.1);
    let best = if preds.len() == 0 {
        let m = cell(sat(cell_at(rows, 0, j - 1).score + s), AlignmentOperation::Match(None));
        let d = cell(sat(cell_at(rows, 0, j).score + sc.2), AlignmentOperation::Xclip(0));
        if d.score > m.score {
            d
        } else {
            m
        }
    } else {
        best_pred(rows, preds, preds.len() as int, v, j, s, sc.2)
    };
    let ins = cell(sat(cell_at(rows, v + 1, j - 1).score + sc.2), AlignmentOperation::Ins(Some(v)));
    if best.score > ins.score {
        best
    } else {
        ins
    }
}

/// The rows after filling columns 1..=j of node `v`'s row, left to right.
pub open spec fn fill_cols(
    rows: Seq<RowModel>,
    preds: Seq<usize>,
    v: usize,
    sym: u8,
    q: Seq<u8>,
    sc: (i32, i32, i32),
    j: int,
) -> Seq<RowModel>
    decreases j,
{
    if j <= 0 {
        rows
    } else {
        let r = fill_cols(rows, preds, v, sym, q, sc, j - 1);
        set_rows(r, v + 1, j, dp_cell(r, preds, v, j, sym, q[j - 1], sc))
    }
}

/// Row `i` opened on the full window [0, n + 1).
pub open spec fn open_row(rows: Seq<RowModel>, i: int, n: int, gap_open: i32) -> Seq<RowModel> {
    rows.update(i, (rows[i].0 + fresh_cells(i, n + 1, gap_open, 0), 0usize, (n + 1) as usize))
}

/// The matrix before any node: empty rows and the root row.
pub open spec fn init_rows(m: int, n: int, gap_open: i32) -> Seq<RowModel> {
    empty_rows(m, n).update(0, (root_cells(n, gap_open), 0usize, (n + 1) as usize))
}

/// The matrix after the first `k` nodes of `order` have each had their row
/// opened and filled, with the predecessors petgraph lists for them.
pub open spec fn dp_rows(g: POAGraph, order: Seq<usize>, q: Seq<u8>, sc: (i32, i32, i32), k: int) -> Seq<
    RowModel,
>
    decreases k,
{
    if k <= 0 {
        init_rows(node_syms(g).len() as int, q.len() as int, sc.2)
    } else {
        let v = order[k - 1];
        fill_cols(
            open_row(dp_rows(g, order, q, sc, k - 1), v + 1, q.len() as int, sc.2),
            incoming_of(g, v),
            v,
            node_syms(g)[v as int],
            q,
            sc,
            q.len() as int,
        )
    }
}

/// The node filled last, if any.
pub open spec fn last_of(order: Seq<usize>) -> usize {
    if order.len() > 0 {
        order.last()
    } else {
        0
    }
}

/// Whether the edge from the cursor into the next node is still owed, after an
/// insertion that opened a path of its own.
#[derive(Copy, Clone, PartialEq, Eq, Structural, Debug)]
pub enum LinkState {
    Pending,
    Linked,
}

/// The symbol that matches any graph symbol without forking.
pub const WILDCARD: u8 = 88;

/// Graph models, cursor node, query index and link state during incorporation.
pub type IncState = (Seq<u8>, Seq<(usize, usize, i32)>, usize, int, LinkState);

/// The edges of a chain of `n` nodes, each of weight 1.
pub open spec fn chain_edges(n: int) -> Seq<(usize, usize, i32)> {
    Seq::new((n - 1) as nat, |k: int| (k as usize, (k + 1) as usize, 1i32))
}

/// Whether some edge goes from `a` to `b`.
pub open spec fn has_edge(edges: Seq<(usize, usize, i32)>, a: usize, b: usize) -> bool {
    exists|k: int| 0 <= k < edges.len() && #[trigger] edges[k].0 == a && edges[k].1 == b
}

/// The edges with the weight of each edge from `a` to `b` raised by one.
pub open spec fn bump(edges: Seq<(usize, usize, i32)>, a: usize, b: usize) -> Seq<(usize, usize, i32)> {
    Seq::new(
        edges.len(),
        |k: int|
            if edges[k].0 == a && edges[k].1 == b {
                (a, b, sat(edges[k].2 + 1))
            } else {
                edges[k]
            },
    )
}

/// A transition from `a` to `b` voted once more: its edge weighs one more, or a
/// new edge of weight 1.
pub open spec fn link_edge(edges: Seq<(usize, usize, i32)>, a: usize, b: usize) -> Seq<(usize, usize, i32)> {
    if has_edge(edges, a, b) {
        bump(edges, a, b)
    } else {
        edges.push((a, b, 1))
    }
}

/// Whether `op` points inside the query and the graph.
pub open spec fn op_fits(st: IncState, op: AlignmentOperation, seq: Seq<u8>) -> bool {
    match op {
        AlignmentOperation::Match(None) => 0 <= st.3 < seq.len(),
        AlignmentOperation::Ins(_) => 0 <= st.3 < seq.len(),
        AlignmentOperation::Match(Some((_, p))) => 0 <= st.3 < seq.len() && p < st.0.len(),
        _ => true,
    }
}

/// One operation of incorporation; one that does not fit is skipped.
pub open spec fn inc_step(st: IncState, op: AlignmentOperation, seq: Seq<u8>, head: usize) -> IncState {
    let nodes = st.0;
    let edges = st.1;
    let prev = st.2;
    let i = st.3;
    let link = st.4;
    let fresh = nodes.len() as usize;
    if !op_fits(st, op, seq) {
        st
    } else {
        match op {
            AlignmentOperation::Match(None) => {
                let st1: IncState = if seq[i] != nodes[head as int] && seq[i] != WILDCARD {
                    (
                        nodes.push(seq[i]),
                        if link == LinkState::Pending { edges.push((prev, fresh, 1)) } else { edges },
                        fresh,
                        i,
                        LinkState::Linked,
                    )
                } else {
                    st
                };
                if st1.4 == LinkState::Pending {
                    (st1.0, link_edge(st1.1, st1.2, head), head, i + 1, LinkState::Linked)
                } else {
                    (st1.0, st1.1, st1.2, i + 1, st1.4)
                }
            },
            AlignmentOperation::Match(Some((_, p))) => {
                if seq[i] != nodes[p as int] && seq[i] != WILDCARD {
                    (nodes.push(seq[i]), edges.push((prev, fresh, 1)), fresh, i + 1, link)
                } else {
                    let edges1 = if has_edge(edges, prev, p) {
                        bump(edges, prev, p)
                    } else if prev != head && prev != p {
                        edges.push((prev, p, 1))
                    } else {
                        edges
                    };
                    (nodes, edges1, p, i + 1, link)
                }
            },
            AlignmentOperation::Ins(None) => (
                nodes.push(seq[i]),
                if link == LinkState::Pending { edges.push((prev, fresh, 1)) } else { edges },
                fresh,
                i + 1,
                LinkState::Pending,
            ),
            AlignmentOperation::Ins(Some(_)) => (nodes.push(seq[i]), edges.push((prev, fresh, 1)), fresh, i + 1, link),
            AlignmentOperation::Yclip(_, r) => (nodes, edges, prev, r as int, link),
            _ => st,
        }
    }
}

/// The state after the first `k` operations.
pub open spec fn incorporate(st0: IncState, ops: Seq<AlignmentOperation>, seq: Seq<u8>, head: usize, k: int) -> IncState
    decreases k,
{
    if k <= 0 {
        st0
    } else {
        inc_step(incorporate(st0, ops, seq, head, k - 1), ops[k - 1], seq, head)
    }
}

proof fn lemma_wf_grow(n: int, edges: Seq<(usize, usize, i32)>)
    requires
        edges_wf(n, edges),
    ensures
        edges_wf(n + 1, edges),
{
}

proof fn lemma_push_new(n: int, edges: Seq<(usize, usize, i32)>, a: usize, b: usize, w: i32)
    requires
        edges_wf(n, edges),
        a < n,
        b < n,
        !has_edge(edges, a, b),
    ensures
        edges_wf(n, edges.push((a, b, w))),
{
    let e2 = edges.push((a, b, w));
    assert forall|x: int, y: int|
        0 <= x < e2.len() && 0 <= y < e2.len() && #[trigger] e2[x].0 == #[trigger] e2[y].0 && e2[x].1 == e2[y].1
            implies x == y by {
        if x < edges.len() && y == edges.len() {
            assert(edges[x].0 == a && edges[x].1 == b);
        }
        if y < edges.len() && x == edges.len() {
            assert(edges[y].0 == a && edges[y].1 == b);
        }
    }
}

proof fn lemma_push_fresh(n: int, edges: Seq<(usize, usize, i32)>, a: usize, w: i32)
    requires
        edges_wf(n, edges),
        a < n + 1,
        n == n as usize,
    ensures
        edges_wf(n + 1, edges.push((a, n as usize, w))),
{
    lemma_wf_grow(n, edges);
    assert(!has_edge(edges, a, n as usize));
    lemma_push_new(n + 1, edges, a, n as usize, w);
}

proof fn lemma_bump(n: int, edges: Seq<(usize, usize, i32)>, e: int)
    requires
        edges_wf(n, edges),
        0 <= e < edges.len(),
    ensures
        edges_wf(n, bump(edges, edges[e].0, edges[e].1)),
        bump(edges, edges[e].0, edges[e].1) == edges.update(
            e,
            (edges[e].0, edges[e].1, sat(edges[e].2 + 1)),
        ),
{
    let b = bump(edges, edges[e].0, edges[e].1);
    assert(b =~= edges.update(e, (edges[e].0, edges[e].1, sat(edges[e].2 + 1))));
    assert forall|x: int, y: int|
        0 <= x < b.len() && 0 <= y < b.len() && #[trigger] b[x].0 == #[trigger] b[y].0 && b[x].1 == b[y].1
            implies x == y by {
        assert(b[x].0 == edges[x].0 && b[x].1 == edges[x].1);
        assert(b[y].0 == edges[y].0 && b[y].1 == edges[y].1);
    }
}

/// Raise the weight of edge `e` by one, saturating.
fn bump_edge(g: &mut POAGraph, e: usize)
    requires
        graph_wf(*old(g)),
        e < edge_list(*old(g)).len(),
    ensures
        graph_wf(*final(g)),
        node_syms(*final(g)) == node_syms(*old(g)),
        edge_list(*final(g)) == bump(
            edge_list(*old(g)),
            edge_list(*old(g))[e as int].0,
            edge_list(*old(g))[e as int].1,
        ),
{
    proof {
        lemma_bump(node_syms(*g).len() as int, edge_list(*g), e as int);
    }
    let w = edge_weight(g, e);
    let w1 = sat_add(w, 1);
    set_edge_weight(g, e, w1);
}

/// Vote once more for the transition from `a` to `b`.
fn link(g: &mut POAGraph, a: usize, b: usize)
    requires
        graph_wf(*old(g)),
        a < node_syms(*old(g)).len(),
        b < node_syms(*old(g)).len(),
    ensures
        graph_wf(*final(g)),
        node_syms(*final(g)) == node_syms(*old(g)),
        edge_list(*final(g)) == link_edge(edge_list(*old(g)), a, b),
{
    match find_edge(g, a, b) {
        Some(e) => {
            bump_edge(g, e);
        },
        None => {
            proof {
                lemma_push_new(node_syms(*g).len() as int, edge_list(*g), a, b, 1);
            }
            add_edge(g, a, b, 1);
        },
    }
}

/// The graph models after merging `seq` along `ops`, the cursor starting at the
/// first node of the topological order; a graph that order leaves empty stays.
pub open spec fn incorporated(g: POAGraph, ops: Seq<AlignmentOperation>, seq: Seq<u8>) -> (Seq<u8>, Seq<(usize, usize, i32)>) {
    if topo_order(g).len() == 0 {
        (node_syms(g), edge_list(g))
    } else {
        let head = topo_order(g)[0];
        let st = incorporate((node_syms(g), edge_list(g), head, 0, LinkState::Linked), ops, seq, head, ops.len() as int);
        (st.0, st.1)
    }
}

/// Per node: weight of the best incoming edge, heaviest path score, best predecessor.
pub type Best = (i32, i32, usize);

/// The weight of the edge from `a` to `b`, or 0 without one.
pub open spec fn pair_weight(edges: Seq<(usize, usize, i32)>, a: usize, b: usize) -> i32 {
    if has_edge(edges, a, b) {
        edges[choose|k: int| 0 <= k < edges.len() && #[trigger] edges[k].0 == a && edges[k].1 == b].2
    } else {
        0
    }
}

/// The heavier path first (edge weight plus the predecessor's path score); on a
/// tie the heavier edge, then the higher predecessor index.
pub open spec fn best_gt(a: Best, b: Best) -> bool {
    a.1 > b.1 || (a.1 == b.1 && (a.0 > b.0 || (a.0 == b.0 && a.2 > b.2)))
}

/// The best entry for node `v` over its first `k` predecessors.
pub open spec fn best_in(edges: Seq<(usize, usize, i32)>, table: Seq<Best>, preds: Seq<usize>, v: usize, k: int) -> Best
    decreases k,
{
    if k <= 0 {
        (0, 0, usize::MAX)
    } else {
        let b = best_in(edges, table, preds, v, k - 1);
        let u = preds[k - 1];
        let w = pair_weight(edges, u, v);
        let c: Best = (w, sat(w + table[u as int].1), u);
        if best_gt(c, b) {
            c
        } else {
            b
        }
    }
}

/// The table after the first `t` nodes of `order`.
pub open spec fn cons_table(g: POAGraph, order: Seq<usize>, t: int) -> Seq<Best>
    decreases t,
{
    if t <= 0 {
        Seq::new(node_syms(g).len(), |k: int| (0i32, 0i32, 0usize))
    } else {
        let v = order[t - 1];
        let prev = cons_table(g, order, t - 1);
        let preds = incoming_of(g, v);
        prev.update(v as int, best_in(edge_list(g), prev, preds, v, preds.len() as int))
    }
}

/// The last index among the first `k` entries whose path score is maximal.
pub open spec fn last_max(table: Seq<Best>, k: int) -> int
    decreases k,
{
    if k <= 1 {
        0
    } else {
        let m = last_max(table, k - 1);
        if table[k - 1].1 >= table[m].1 {
            k - 1
        } else {
            m
        }
    }
}

/// The nodes from `pos` back along best predecessors, for at most `fuel` nodes.
pub open spec fn back_chain(table: Seq<Best>, pos: int, fuel: nat) -> Seq<usize>
    decreases fuel,
{
    if fuel == 0 || !(0 <= pos < table.len()) {
        seq![]
    } else {
        seq![pos as usize] + back_chain(table, table[pos].2 as int, (fuel - 1) as nat)
    }
}

/// The symbols of the heaviest path, visiting the nodes in `order`.
pub open spec fn consensus_of(g: POAGraph, order: Seq<usize>) -> Seq<u8> {
    let t = cons_table(g, order, order.len() as int);
    let chain = back_chain(t, last_max(t, t.len() as int), t.len());
    reversed(syms_of(g, chain))
}

/// The symbols of the nodes `s`.
pub open spec fn syms_of(g: POAGraph, s: Seq<usize>) -> Seq<u8> {
    s.map_values(|v: usize| node_syms(g)[v as int])
}

/// The symbols a query profile scores, in profile order: A, C, G, T.
pub open spec fn profile_base(c: int) -> u8 {
    if c == 0 {
        65
    } else if c == 1 {
        67
    } else if c == 2 {
        71
    } else {
        84
    }
}

/// The profile score of query position `k` against profile symbol `c`.
pub open spec fn profile_score(q: Seq<u8>, k: int, c: int, match_score: i32, mismatch_score: i32) -> i16 {
    if q[k] == profile_base(c) {
        match_score as i16
    } else {
        mismatch_score as i16
    }
}

/// Why an operation refused its input.
#[derive(Copy, Clone, PartialEq, Eq, Structural, Debug)]
pub enum PoaError {
    /// A graph cannot be built from an empty reference.
    EmptyReference,
    /// A query cannot be aligned against a graph without nodes.
    EmptyGraph,
    /// The lane pass scores A, C, G and T only.
    UnsupportedSymbol,
}

/// Every node holds A, C, G or T.
pub open spec fn all_profile(g: POAGraph) -> bool {
    forall|v: int| 0 <= v < node_syms(g).len() ==> is_profile_symbol(#[trigger] node_syms(g)[v])
}

/// A partial-order alignment graph and its scores.
#[derive(Debug)]
pub struct Poa {
    pub match_score: i32,
    pub mismatch_score: i32,
    pub gap_open_score: i32,
    pub graph: POAGraph,
    pub memory_usage: usize,
}

impl Poa {
    /// The scores as (match, mismatch, gap open).
    pub open spec fn scores(&self) -> (i32, i32, i32) {
        (self.match_score, self.mismatch_score, self.gap_open_score)
    }

    /// A non-empty graph whose edges join existing nodes, one edge per ordered pair.
    pub open spec fn wf(&self) -> bool {
        self.edges_ok() && 0 < node_syms(self.graph).len()
    }

    /// Well-formed edges, and room for one more node index.
    pub open spec fn edges_ok(&self) -> bool {
        graph_wf(self.graph) && node_syms(self.graph).len() < usize::MAX
    }

    /// Fill a traceback matrix for `query`, visiting the nodes in `order`.
    pub fn fill_traceback(&self, order: &Vec<usize>, query: &Vec<u8>) -> (r: Traceback)
        requires
            self.wf(),
            query@.len() + 1 < usize::MAX,
            forall|k: int| 0 <= k < order@.len() ==> #[trigger] order@[k] < node_syms(self.graph).len(),
        ensures
            r.rows == node_syms(self.graph).len(),
            r.cols == query@.len(),
            r.last == last_of(order@),
            r.last < r.rows,
            r.matrix@.len() == r.rows + 1,
            r.model() == dp_rows(self.graph, order@, query@, self.scores(), order@.len() as int),
            forall|t: int|
                0 <= t < order@.len() ==> (#[trigger] incoming_of(self.graph, order@[t])).to_multiset()
                    == sources_into(edge_list(self.graph), order@[t]).to_multiset(),
    {
        let ghost g = self.graph;
        let ghost sc = self.scores();
        let m = node_count(&self.graph);
        let n = query.len();
        let gap = self.gap_open_score;
        let mut tb = Traceback::with_capacity(m, n);
        tb.initialize_scores(gap);
        assert(tb.model() =~= dp_rows(g, order@, query@, sc, 0));
        let mut k: usize = 0;
        while k < order.len()
            invariant
                k <= order@.len(),
                self.graph == g,
                sc == self.scores(),
                gap == sc.2,
                m == node_syms(g).len(),
                m < usize::MAX,
                n == query@.len(),
                n + 1 < usize::MAX,
                forall|t: int| 0 <= t < order@.len() ==> #[trigger] order@[t] < m,
                tb.rows == m,
                tb.cols == n,
                tb.matrix@.len() == m + 1,
                tb.last == last_of(order@.take(k as int)),
                tb.last < m,
                tb.model() == dp_rows(g, order@, query@, sc, k as int),
                forall|x: int|
                    0 <= x < k ==> (#[trigger] incoming_of(g, order@[x])).to_multiset() == sources_into(
                        edge_list(g),
                        order@[x],
                    ).to_multiset(),
            decreases order@.len() - k,
        {
            let v = order[k];
            let sym = node_symbol(&self.graph, v);
            let i = v + 1;
            tb.last = v;
            let prevs = incoming(&self.graph, v);
            let ghost opened = open_row(dp_rows(g, order@, query@, sc, k as int), i as int, n as int, gap);
            tb.new_row(i, n + 1, gap, 0, n + 1);
            assert(tb.model() =~= opened);
            let mut j: usize = 1;
            while j <= n
                invariant
                    1 <= j <= n + 1,
                    self.graph == g,
                    sc == self.scores(),
                    gap == sc.2,
                    n == query@.len(),
                    n + 1 < usize::MAX,
                    i == v + 1,
                    v < m,
                    m < usize::MAX,
                    sym == node_syms(g)[v as int],
                    prevs@ == incoming_of(g, v),
                    forall|t: int| 0 <= t < prevs@.len() ==> #[trigger] prevs@[t] < m,
                    tb.matrix@.len() == m + 1,
                    tb.rows == m,
                    tb.cols == n,
                    tb.last == v,
                    tb.model() == fill_cols(opened, prevs@, v, sym, query@, sc, j - 1),
                decreases n + 1 - j,
            {
                let ghost before = tb.model();
                let qb = query[j - 1];
                let s = if sym == qb {
                    self.match_score
                } else {
                    self.mismatch_score
                };
                let best = if prevs.len() == 0 {
                    let mc = TracebackCell { score: sat_add(tb.get(0, j - 1).score, s), op: AlignmentOperation::Match(None) };
                    let dc = TracebackCell { score: sat_add(tb.get(0, j).score, gap), op: AlignmentOperation::Xclip(0) };
                    if dc.score > mc.score {
                        dc
                    } else {
                        mc
                    }
                } else {
                    let mut best = TracebackCell { score: MIN_SCORE, op: AlignmentOperation::Match(None) };
                    let mut t: usize = 0;
                    while t < prevs.len()
                        invariant
                            t <= prevs@.len(),
                            1 <= j <= n,
                            forall|u: int| 0 <= u < prevs@.len() ==> #[trigger] prevs@[u] < m,
                            tb.matrix@.len() == m + 1,
                            tb.model() == before,
                            best == best_pred(before, prevs@, t as int, v, j as int, s, gap),
                        decreases prevs@.len() - t,
                    {
                        let p = prevs[t];
                        let mc = TracebackCell {
                            score: sat_add(tb.get(p + 1, j - 1).score, s),
                            op: AlignmentOperation::Match(Some((p, v))),
                        };
                        let dc = TracebackCell {
                            score: sat_add(tb.get(p + 1, j).score, gap),
                            op: AlignmentOperation::Del(Some((p, v))),
                        };
                        if mc.score > best.score {
                            best = mc;
                        }
                        if dc.score > best.score {
                            best = dc;
                        }
                        t = t + 1;
                    }
                    best
                };
                let ins = TracebackCell {
                    score: sat_add(tb.get(i, j - 1).score, gap),
                    op: AlignmentOperation::Ins(Some(v)),
                };
                let c = if best.score > ins.score {
                    best
                } else {
                    ins
                };
                assert(c == dp_cell(before, prevs@, v, j as int, sym, query@[j - 1], sc));
                tb.set(i, j, c);
                j = j + 1;
            }
            proof {
                assert(order@.take(k + 1).last() == v);
            }
            k = k + 1;
        }
        assert(order@.take(order@.len() as int) =~= order@);
        tb
    }

    /// Align `query` globally against the graph, nodes in petgraph's topological order.
    /// Fails with `EmptyGraph` on a graph without nodes.
    pub fn custom(&self, query: &Vec<u8>) -> (res: Result<Traceback, PoaError>)
        requires
            self.edges_ok(),
            query@.len() + 1 < usize::MAX,
        ensures
            node_syms(self.graph).len() == 0 <==> res == Err::<Traceback, PoaError>(PoaError::EmptyGraph),
            res is Err ==> res == Err::<Traceback, PoaError>(PoaError::EmptyGraph),
            res is Ok ==> ({
            let r = res->Ok_0;
            &&& r.rows == node_syms(self.graph).len()
            &&& r.cols == query@.len()
            &&& r.last == last_of(topo_order(self.graph))
            &&& r.last < r.rows
            &&& r.matrix@.len() == r.rows + 1
            &&& r.model() == dp_rows(
                self.graph,
                topo_order(self.graph),
                query@,
                self.scores(),
                topo_order(self.graph).len() as int,
            )
            &&& (is_chain(node_syms(self.graph).len() as int, edge_list(self.graph)) && query@ == node_syms(self.graph)
                && self_scores_ok(self.scores(), node_syms(self.graph).len() as int) ==> alignment_of(
                r.model(),
                r.last as int,
                r.cols as int,
            ) == ((self.match_score * node_syms(self.graph).len()) as i32, self_path_ops(node_syms(self.graph).len() as int)))
            }),
    {
        if node_count(&self.graph) == 0 {
            return Err(PoaError::EmptyGraph);
        }
        let order = topological_order(&self.graph);
        let r = self.fill_traceback(&order, query);
        proof {
            if is_chain(node_syms(self.graph).len() as int, edge_list(self.graph)) && query@ == node_syms(self.graph)
                && self_scores_ok(self.scores(), node_syms(self.graph).len() as int) {
                lemma_self_alignment(self.graph, self.scores());
            }
        }
        Ok(r)
    }
    /// A graph holding `seq` as a chain of nodes joined by edges of weight 1.
    /// Fails with `EmptyReference` on an empty sequence.
    pub fn from_string(match_score: i32, mismatch_score: i32, gap_open_score: i32, seq: &Vec<u8>) -> (res: Result<
        Self,
        PoaError,
    >)
        requires
            seq@.len() < usize::MAX,
        ensures
            seq@.len() == 0 <==> res == Err::<Self, PoaError>(PoaError::EmptyReference),
            res is Err ==> res == Err::<Self, PoaError>(PoaError::EmptyReference),
            res is Ok ==> ({
                let r = res->Ok_0;
                &&& r.wf()
                &&& r.scores() == (match_score, mismatch_score, gap_open_score)
                &&& node_syms(r.graph) == seq@
                &&& edge_list(r.graph) == chain_edges(seq@.len() as int)
                &&& r.memory_usage == 0
            }),
    {
        if seq.len() == 0 {
            return Err(PoaError::EmptyReference);
        }
        let mut graph = graph_with_capacity(seq.len(), seq.len() - 1);
        let mut prev = add_node(&mut graph, seq[0]);
        let mut k: usize = 1;
        while k < seq.len()
            invariant
                1 <= k <= seq@.len(),
                prev == k - 1,
                node_syms(graph) == seq@.take(k as int),
                edge_list(graph) == chain_edges(k as int),
            decreases seq@.len() - k,
        {
            let node = add_node(&mut graph, seq[k]);
            add_edge(&mut graph, prev, node, 1);
            prev = node;
            k = k + 1;
            assert(node_syms(graph) =~= seq@.take(k as int));
            assert(edge_list(graph) =~= chain_edges(k as int));
        }
        assert(node_syms(graph) =~= seq@);
        assert(edges_wf(seq@.len() as int, chain_edges(seq@.len() as int)));
        Ok(Poa { match_score, mismatch_score, gap_open_score, graph, memory_usage: 0 })
    }

    /// Whether every node holds A, C, G or T.
    pub fn all_profile_symbols(&self) -> (r: bool)
        ensures
            r == all_profile(self.graph),
    {
        let n = node_count(&self.graph);
        let mut v: usize = 0;
        while v < n
            invariant
                v <= n,
                n == node_syms(self.graph).len(),
                forall|x: int| 0 <= x < v ==> is_profile_symbol(#[trigger] node_syms(self.graph)[x]),
            decreases n - v,
        {
            let b = node_symbol(&self.graph, v);
            if !(b == 65 || b == 67 || b == 71 || b == 84) {
                return false;
            }
            v = v + 1;
        }
        true
    }

    /// Merge a query into the graph along its alignment. The cursor starts at the
    /// first node of the topological order; operations that point outside the
    /// query or the graph are skipped.
    pub fn add_alignment(&mut self, aln: &Alignment, seq: &Vec<u8>)
        requires
            old(self).wf(),
            node_syms(old(self).graph).len() + aln.operations@.len() < usize::MAX,
        ensures
            final(self).wf(),
            final(self).scores() == old(self).scores(),
            final(self).memory_usage == old(self).memory_usage,
            (node_syms(final(self).graph), edge_list(final(self).graph)) == incorporated(
                old(self).graph,
                aln.operations@,
                seq@,
            ),
    {
        let order = topological_order(&self.graph);
        if order.len() == 0 {
            return;
        }
        let head = order[0];
        let ghost st0: IncState = (node_syms(self.graph), edge_list(self.graph), head, 0, LinkState::Linked);
        let ghost n0 = node_syms(self.graph).len();
        let ghost sc = self.scores();
        let ghost mu = self.memory_usage;
        let ops = &aln.operations;
        let mut prev = head;
        let mut i: usize = 0;
        let mut link_state = LinkState::Linked;
        let mut k: usize = 0;
        while k < ops.len()
            invariant
                k <= ops@.len(),
                n0 + ops@.len() < usize::MAX,
                node_syms(self.graph).len() <= n0 + k,
                self.wf(),
                self.scores() == sc,
                self.memory_usage == mu,
                head < node_syms(self.graph).len(),
                prev < node_syms(self.graph).len(),
                (node_syms(self.graph), edge_list(self.graph), prev, i as int, link_state) == incorporate(
                    st0,
                    ops@,
                    seq@,
                    head,
                    k as int,
                ),
            decreases ops@.len() - k,
        {
            let ghost st: IncState = (node_syms(self.graph), edge_list(self.graph), prev, i as int, link_state);
            let op = ops[k];
            let fits = match op {
                AlignmentOperation::Match(None) => i < seq.len(),
                AlignmentOperation::Ins(_) => i < seq.len(),
                AlignmentOperation::Match(Some((_, p))) => i < seq.len() && p < node_count(&self.graph),
                _ => true,
            };
            assert(fits == op_fits(st, op, seq@));
            if fits {
                match op {
                    AlignmentOperation::Match(None) => {
                        let head_sym = node_symbol(&self.graph, head);
                        if seq[i] != head_sym && seq[i] != WILDCARD {
                            let ghost n = node_syms(self.graph).len() as int;
                            proof {
                                lemma_wf_grow(n, edge_list(self.graph));
                            }
                            let node = add_node(&mut self.graph, seq[i]);
                            if link_state == LinkState::Pending {
                                proof {
                                    lemma_push_fresh(n, edge_list(self.graph), prev, 1);
                                }
                                add_edge(&mut self.graph, prev, node, 1);
                            }
                            link_state = LinkState::Linked;
                            prev = node;
                        }
                        if link_state == LinkState::Pending {
                            link(&mut self.graph, prev, head);
                            prev = head;
                            link_state = LinkState::Linked;
                        }
                        i = i + 1;
                    },
                    AlignmentOperation::Match(Some((_, p))) => {
                        let p_sym = node_symbol(&self.graph, p);
                        if seq[i] != p_sym && seq[i] != WILDCARD {
                            let ghost n = node_syms(self.graph).len() as int;
                            proof {
                                lemma_wf_grow(n, edge_list(self.graph));
                            }
                            let node = add_node(&mut self.graph, seq[i]);
                            proof {
                                lemma_push_fresh(n, edge_list(self.graph), prev, 1);
                            }
                            add_edge(&mut self.graph, prev, node, 1);
                            prev = node;
                        } else {
                            match find_edge(&self.graph, prev, p) {
                                Some(e) => {
                                    bump_edge(&mut self.graph, e);
                                },
                                None => {
                                    if prev != head && prev != p {
                                        proof {
                                            lemma_push_new(
                                                node_syms(self.graph).len() as int,
                                                edge_list(self.graph),
                                                prev,
                                                p,
                                                1,
                                            );
                                        }
                                        add_edge(&mut self.graph, prev, p, 1);
                                    }
                                },
                            }
                            prev = p;
                        }
                        i = i + 1;
                    },
                    AlignmentOperation::Ins(None) => {
                        let ghost n = node_syms(self.graph).len() as int;
                        proof {
                            lemma_wf_grow(n, edge_list(self.graph));
                        }
                        let node = add_node(&mut self.graph, seq[i]);
                        if link_state == LinkState::Pending {
                            proof {
                                lemma_push_fresh(n, edge_list(self.graph), prev, 1);
                            }
                            add_edge(&mut self.graph, prev, node, 1);
                        }
                        prev = node;
                        link_state = LinkState::Pending;
                        i = i + 1;
                    },
                    AlignmentOperation::Ins(Some(_)) => {
                        let ghost n = node_syms(self.graph).len() as int;
                        proof {
                            lemma_wf_grow(n, edge_list(self.graph));
                        }
                        let node = add_node(&mut self.graph, seq[i]);
                        proof {
                            lemma_push_fresh(n, edge_list(self.graph), prev, 1);
                        }
                        add_edge(&mut self.graph, prev, node, 1);
                        prev = node;
                        i = i + 1;
                    },
                    AlignmentOperation::Yclip(_, r) => {
                        i = r;
                    },
                    _ => {},
                }
            }
            assert((node_syms(self.graph), edge_list(self.graph), prev, i as int, link_state) == inc_step(
                st,
                op,
                seq@,
                head,
            ));
            k = k + 1;
        }
    }
    /// Score lane `k` of query block `b` against `base`.
    fn lane(seq_y: &Vec<u8>, b: usize, k: usize, base: u8, match_score: i32, mismatch_score: i32) -> (r: i16)
        requires
            k < 8,
            b < seq_y@.len() / 8,
        ensures
            r == (if seq_y@[8 * b + k] == base { match_score as i16 } else { mismatch_score as i16 }),
    {
        let len = seq_y.len();
        assert(8 * (b as int) + 8 <= len as int) by (nonlinear_arith)
            requires
                (b as int) < (len as int) / 8,
                len >= 0,
        ;
        let idx: usize = 8 * b + k;
        if seq_y[idx] == base {
            #[verifier::truncate]
            (match_score as i16)
        } else {
            #[verifier::truncate]
            (mismatch_score as i16)
        }
    }

    /// The query profile: for each of A, C, G, T, one block of eight lanes per
    /// whole eight query symbols, each lane the match or mismatch score of its
    /// symbol against that base. A tail shorter than eight is left out.
    pub fn profile_query(seq_y: &Vec<u8>, match_score: i32, mismatch_score: i32) -> (r: Vec<Vec<[i16; 8]>>)
        ensures
            r@.len() == 4,
            forall|c: int| 0 <= c < 4 ==> (#[trigger] r@[c])@.len() == seq_y@.len() / 8,
            forall|c: int, b: int, k: int|
                0 <= c < 4 && 0 <= b < seq_y@.len() / 8 && 0 <= k < 8 ==> #[trigger] r@[c]@[b]@[k]
                    == profile_score(seq_y@, 8 * b + k, c, match_score, mismatch_score),
    {
        let nb = seq_y.len() / 8;
        let mut r: Vec<Vec<[i16; 8]>> = Vec::new();
        let mut c: usize = 0;
        while c < 4
            invariant
                c <= 4,
                nb == seq_y@.len() / 8,
                r@.len() == c,
                forall|c2: int| 0 <= c2 < c ==> (#[trigger] r@[c2])@.len() == nb,
                forall|c2: int, b: int, k: int|
                    0 <= c2 < c && 0 <= b < nb && 0 <= k < 8 ==> #[trigger] r@[c2]@[b]@[k]
                        == profile_score(seq_y@, 8 * b + k, c2, match_score, mismatch_score),
            decreases 4 - c,
        {
            let base: u8 = if c == 0 {
                65
            } else if c == 1 {
                67
            } else if c == 2 {
                71
            } else {
                84
            };
            let mut blocks: Vec<[i16; 8]> = Vec::new();
            let mut b: usize = 0;
            while b < nb
                invariant
                    b <= nb,
                    c < 4,
                    base == profile_base(c as int),
                    nb == seq_y@.len() / 8,
                    blocks@.len() == b,
                    forall|b2: int, k: int|
                        0 <= b2 < b && 0 <= k < 8 ==> #[trigger] blocks@[b2]@[k] == profile_score(
                            seq_y@,
                            8 * b2 + k,
                            c as int,
                            match_score,
                            mismatch_score,
                        ),
                decreases nb - b,
            {
                let block: [i16; 8] = [
                    Self::lane(seq_y, b, 0, base, match_score, mismatch_score),
                    Self::lane(seq_y, b, 1, base, match_score, mismatch_score),
                    Self::lane(seq_y, b, 2, base, match_score, mismatch_score),
                    Self::lane(seq_y, b, 3, base, match_score, mismatch_score),
                    Self::lane(seq_y, b, 4, base, match_score, mismatch_score),
                    Self::lane(seq_y, b, 5, base, match_score, mismatch_score),
                    Self::lane(seq_y, b, 6, base, match_score, mismatch_score),
                    Self::lane(seq_y, b, 7, base, match_score, mismatch_score),
                ];
                blocks.push(block);
                b = b + 1;
            }
            r.push(blocks);
            c = c + 1;
        }
        r
    }

    /// The heaviest path through the graph, visiting the nodes in `order`.
    pub fn heaviest_path(&self, order: &Vec<usize>) -> (r: Vec<u8>)
        requires
            self.wf(),
            forall|k: int| 0 <= k < order@.len() ==> #[trigger] order@[k] < node_syms(self.graph).len(),
        ensures
            r@ == consensus_of(self.graph, order@),
            forall|t: int|
                0 <= t < order@.len() ==> (#[trigger] incoming_of(self.graph, order@[t])).to_multiset()
                    == sources_into(edge_list(self.graph), order@[t]).to_multiset(),
    {
        let ghost g = self.graph;
        let n = node_count(&self.graph);
        let mut table: Vec<Best> = Vec::new();
        let mut k: usize = 0;
        while k < n
            invariant
                k <= n,
                table@ =~= Seq::new(n as nat, |t: int| (0i32, 0i32, 0usize)).take(k as int),
            decreases n - k,
        {
            table.push((0, 0, 0));
            k = k + 1;
        }
        assert(table@ =~= cons_table(g, order@, 0));
        let mut t: usize = 0;
        while t < order.len()
            invariant
                t <= order@.len(),
                self.graph == g,
                self.wf(),
                n == node_syms(g).len(),
                forall|x: int| 0 <= x < order@.len() ==> #[trigger] order@[x] < n,
                table@ == cons_table(g, order@, t as int),
                table@.len() == n,
                forall|x: int|
                    0 <= x < t ==> (#[trigger] incoming_of(g, order@[x])).to_multiset() == sources_into(
                        edge_list(g),
                        order@[x],
                    ).to_multiset(),
            decreases order@.len() - t,
        {
            let v = order[t];
            let preds = incoming(&self.graph, v);
            let mut best: Best = (0, 0, usize::MAX);
            let mut x: usize = 0;
            while x < preds.len()
                invariant
                    x <= preds@.len(),
                    self.graph == g,
                    self.wf(),
                    n == node_syms(g).len(),
                    v < n,
                    table@.len() == n,
                    preds@ == incoming_of(g, v),
                    forall|y: int| 0 <= y < preds@.len() ==> #[trigger] preds@[y] < n,
                    best == best_in(edge_list(g), table@, preds@, v, x as int),
                decreases preds@.len() - x,
            {
                let u = preds[x];
                let w = match find_edge(&self.graph, u, v) {
                    Some(e) => {
                        proof {
                            let edges = edge_list(g);
                            let c = choose|k: int| 0 <= k < edges.len() && #[trigger] edges[k].0 == u && edges[k].1 == v;
                            assert(edges[e as int].0 == u && edges[e as int].1 == v);
                            assert(edges[c].0 == edges[e as int].0 && edges[c].1 == edges[e as int].1);
                        }
                        edge_weight(&self.graph, e)
                    },
                    None => 0,
                };
                assert(w == pair_weight(edge_list(g), u, v));
                let c: Best = (w, sat_add(w, table[u].1), u);
                if c.1 > best.1 || (c.1 == best.1 && (c.0 > best.0 || (c.0 == best.0 && c.2 > best.2))) {
                    best = c;
                }
                x = x + 1;
            }
            table.set(v, best);
            t = t + 1;
        }
        let mut pos: usize = 0;
        let mut k: usize = 1;
        while k < n
            invariant
                1 <= k <= n,
                table@.len() == n,
                pos == last_max(table@, k as int),
                0 <= pos < k,
            decreases n - k,
        {
            if table[k].1 >= table[pos].1 {
                pos = k;
            }
            k = k + 1;
        }
        let ghost tab = table@;
        let ghost chain = back_chain(tab, pos as int, n as nat);
        let mut back: Vec<u8> = Vec::new();
        let mut fuel: usize = n;
        let mut cur: usize = pos;
        let ghost mut pre: Seq<usize> = seq![];
        while fuel > 0 && cur < n
            invariant
                fuel <= n,
                self.graph == g,
                n == node_syms(g).len(),
                table@ == tab,
                tab.len() == n,
                pre + back_chain(tab, cur as int, fuel as nat) == chain,
                back@ == syms_of(g, pre),
            decreases fuel,
        {
            back.push(node_symbol(&self.graph, cur));
            proof {
                let pre2 = pre.push(cur);
                assert(pre2 + back_chain(tab, table@[cur as int].2 as int, (fuel - 1) as nat) =~= chain);
                assert(back@ =~= syms_of(g, pre2));
                pre = pre2;
            }
            cur = table[cur].2;
            fuel = fuel - 1;
        }
        proof {
            assert(back_chain(tab, cur as int, fuel as nat) =~= Seq::<usize>::empty());
            assert(pre =~= chain);
        }
        let mut r: Vec<u8> = Vec::new();
        let mut k: usize = back.len();
        while k > 0
            invariant
                k <= back@.len(),
                r@.len() == back@.len() - k,
                forall|t: int| 0 <= t < r@.len() ==> r@[t] == back@[back@.len() - 1 - t],
            decreases k,
        {
            k = k - 1;
            r.push(back[k]);
        }
        assert(r@ =~= reversed(back@));
        r
    }
}

/// Builds a graph from a reference, aligns queries to it one at a time, and
/// merges each alignment into it.
#[derive(Debug)]
pub struct Aligner {
    pub traceback: Traceback,
    pub query: Vec<u8>,
    pub poa: Poa,
}

impl Aligner {
    pub open spec fn wf(&self) -> bool {
        self.poa.wf()
    }

    /// An aligner whose graph is the chain of `reference`.
    /// Fails with `EmptyReference` on an empty reference.
    pub fn new(match_score: i32, mismatch_score: i32, gap_open_score: i32, reference: &Vec<u8>) -> (res: Result<
        Self,
        PoaError,
    >)
        requires
            reference@.len() < usize::MAX,
        ensures
            reference@.len() == 0 <==> res == Err::<Self, PoaError>(PoaError::EmptyReference),
            res is Err ==> res == Err::<Self, PoaError>(PoaError::EmptyReference),
            res is Ok ==> ({
                let r = res->Ok_0;
                &&& r.wf()
                &&& r.query@ == reference@
                &&& r.traceback.model() == Seq::<RowModel>::empty()
                &&& r.traceback.rows == 0
                &&& r.traceback.last == 0
                &&& r.traceback.cols == 0
                &&& r.poa.scores() == (match_score, mismatch_score, gap_open_score)
                &&& r.poa.memory_usage == 0
                &&& node_syms(r.poa.graph) == reference@
                &&& edge_list(r.poa.graph) == chain_edges(reference@.len() as int)
            }),
    {
        let poa = match Poa::from_string(match_score, mismatch_score, gap_open_score, reference) {
            Ok(p) => p,
            Err(e) => {
                return Err(e);
            },
        };
        let mut query: Vec<u8> = Vec::new();
        let mut k: usize = 0;
        while k < reference.len()
            invariant
                k <= reference@.len(),
                query@ =~= reference@.take(k as int),
            decreases reference@.len() - k,
        {
            query.push(reference[k]);
            k = k + 1;
        }
        assert(query@ =~= reference@);
        Ok(Aligner { traceback: Traceback::new(), query, poa })
    }

    /// Merge the alignment of the last query into the graph. Nothing changes when
    /// the graph could not index the nodes it might gain.
    pub fn add_to_graph(&mut self) -> (r: &mut Self)
        requires
            old(self).wf(),
        ensures
            *final(self) == *final(r),
            r.wf(),
            r.traceback == old(self).traceback,
            r.query == old(self).query,
            r.poa.scores() == old(self).poa.scores(),
            ({
                let aln = alignment_of(old(self).traceback.model(), old(self).traceback.last as int, old(self).traceback.cols as int);
                if node_syms(old(self).poa.graph).len() + aln.1.len() < usize::MAX {
                    (node_syms(r.poa.graph), edge_list(r.poa.graph)) == incorporated(
                        old(self).poa.graph,
                        aln.1,
                        old(self).query@,
                    )
                } else {
                    r.poa == old(self).poa
                }
            }),
    {
        let alignment = self.traceback.alignment();
        let n = node_count(&self.poa.graph);
        if alignment.operations.len() < usize::MAX - n {
            self.poa.add_alignment(&alignment, &self.query);
        }
        self
    }

    /// The alignment of the last query against the graph.
    pub fn alignment(&self) -> (r: Alignment)
        ensures
            (r.score, r.operations@) == alignment_of(self.traceback.model(), self.traceback.last as int, self.traceback.cols as int),
    {
        self.traceback.alignment()
    }

    /// Align `query` globally against the graph.
    pub fn global(&mut self, query: &Vec<u8>) -> (r: &mut Self)
        requires
            old(self).wf(),
            query@.len() + 1 < usize::MAX,
        ensures
            *final(self) == *final(r),
            r.poa == old(self).poa,
            r.query@ == query@,
            r.traceback.cols == query@.len(),
            r.traceback.rows == node_syms(old(self).poa.graph).len(),
            r.traceback.last == last_of(topo_order(old(self).poa.graph)),
            r.traceback.model() == dp_rows(
                old(self).poa.graph,
                topo_order(old(self).poa.graph),
                query@,
                old(self).poa.scores(),
                topo_order(old(self).poa.graph).len() as int,
            ),
            is_chain(node_syms(old(self).poa.graph).len() as int, edge_list(old(self).poa.graph)) && query@
                == node_syms(old(self).poa.graph) && self_scores_ok(
                old(self).poa.scores(),
                node_syms(old(self).poa.graph).len() as int,
            ) ==> alignment_of(
                r.traceback.model(),
                r.traceback.last as int,
                r.traceback.cols as int,
            ) == (
                (old(self).poa.match_score * node_syms(old(self).poa.graph).len()) as i32,
                self_path_ops(node_syms(old(self).poa.graph).len() as int),
            ),
    {
        let mut q: Vec<u8> = Vec::new();
        let mut k: usize = 0;
        while k < query.len()
            invariant
                k <= query@.len(),
                q@ =~= query@.take(k as int),
            decreases query@.len() - k,
        {
            q.push(query[k]);
            k = k + 1;
        }
        assert(q@ =~= query@);
        self.query = q;
        self.traceback = match self.poa.custom(query) {
            Ok(tb) => tb,
            Err(_) => Traceback::new(),
        };
        self
    }

    /// Run the lane-vectorized pass for `query`, which becomes the last query.
    /// Fails with `UnsupportedSymbol` where a node holds other than A, C, G, T.
    pub fn global_simd(&mut self, query: &Vec<u8>) -> (res: Result<Vec<Vec<[i16; 8]>>, PoaError>)
        requires
            old(self).wf(),
            query@.len() / 8 < 4096,
        ensures
            final(self).poa == old(self).poa,
            final(self).traceback == old(self).traceback,
            final(self).query@ == query@,
            !all_profile(old(self).poa.graph) <==> res == Err::<Vec<Vec<[i16; 8]>>, PoaError>(PoaError::UnsupportedSymbol),
            res is Err ==> res == Err::<Vec<Vec<[i16; 8]>>, PoaError>(PoaError::UnsupportedSymbol),
            res is Ok ==> lanes_model(res->Ok_0) == lanes_after(
                old(self).poa.graph,
                topo_order(old(self).poa.graph),
                query@,
                old(self).poa.scores(),
                topo_order(old(self).poa.graph).len() as int,
            ),
    {
        let mut q: Vec<u8> = Vec::new();
        let mut k: usize = 0;
        while k < query.len()
            invariant
                k <= query@.len(),
                q@ =~= query@.take(k as int),
            decreases query@.len() - k,
        {
            q.push(query[k]);
            k = k + 1;
        }
        assert(q@ =~= query@);
        self.query = q;
        self.poa.custom_simd(query)
    }

    /// The alignment graph.
    pub fn graph(&self) -> (r: &POAGraph)
        ensures
            *r == self.poa.graph,
    {
        &self.poa.graph
    }

    /// The consensus: the heaviest path through the graph.
    pub fn consensus(&self) -> (r: Vec<u8>)
        requires
            self.wf(),
        ensures
            r@ == consensus_of(self.poa.graph, topo_order(self.poa.graph)),
            edge_list(self.poa.graph) == chain_edges(node_syms(self.poa.graph).len() as int) ==> r@
                == node_syms(self.poa.graph),
    {
        let order = topological_order(&self.poa.graph);
        let r = self.poa.heaviest_path(&order);
        proof {
            if edge_list(self.poa.graph) == chain_edges(node_syms(self.poa.graph).len() as int) {
                lemma_chain_consensus(self.poa.graph, order@);
            }
        }
        r
    }
}

} // verus!
