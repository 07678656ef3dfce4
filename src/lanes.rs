//! The lane-vectorized scoring pass: blocks of eight query positions scored at
//! once, lane arithmetic wrapping as on SIMD registers. Experimental: it does
//! not model every predecessor and deletion interaction of the scalar engine.
use vstd::prelude::*;
use crate::graph::{incoming, incoming_of, node_count, node_symbol, node_syms, topo_order, topological_order};
use crate::poa::{all_profile, profile_score, Poa, PoaError};

verus! {

/// Eight lanes.
pub type Lanes = Seq<i16>;

pub open spec fn splat(x: i16) -> Lanes {
    Seq::new(8, |k: int| x)
}

pub open spec fn ladd(a: Lanes, b: Lanes) -> Lanes {
    Seq::new(8, |k: int| a[k].wrapping_add(b[k]))
}

pub open spec fn lsub(a: Lanes, b: Lanes) -> Lanes {
    Seq::new(8, |k: int| a[k].wrapping_sub(b[k]))
}

pub open spec fn lmul(a: Lanes, b: Lanes) -> Lanes {
    Seq::new(8, |k: int| a[k].wrapping_mul(b[k]))
}

pub open spec fn lmax(a: Lanes, b: Lanes) -> Lanes {
    Seq::new(8, |k: int| if a[k] >= b[k] { a[k] } else { b[k] })
}

/// Rotation by one lane towards the high end: lane `k` takes lane `k - 1`, lane 0
/// takes lane 7.
pub open spec fn rot(a: Lanes) -> Lanes {
    Seq::new(8, |k: int| a[(k + 7) % 8])
}

/// Only lane 0 kept.
pub open spec fn first_mask() -> Lanes {
    Seq::new(8, |k: int| if k == 0 { 1i16 } else { 0i16 })
}

/// Lane 0 cleared.
pub open spec fn shift_mask() -> Lanes {
    Seq::new(8, |k: int| if k == 0 { 0i16 } else { 1i16 })
}

/// Lane 0 pushed towards the lowest value.
pub open spec fn shift_mask_low() -> Lanes {
    Seq::new(8, |k: int| if k == 0 { i16::MIN } else { 1i16 })
}

/// Lane `k` of `a` set to `x`.
pub open spec fn lane_only(k: int, x: i16) -> Lanes {
    Seq::new(8, |t: int| if t == k { x } else { 0i16 })
}

/// The profile index of a symbol: A, C, G, T.
pub open spec fn base_index(b: u8) -> int {
    if b == 65 {
        0
    } else if b == 67 {
        1
    } else if b == 71 {
        2
    } else {
        3
    }
}

pub open spec fn is_profile_symbol(b: u8) -> bool {
    b == 65 || b == 67 || b == 71 || b == 84
}

/// Block `s` of the query profile for profile symbol `c`.
pub open spec fn profile_block(q: Seq<u8>, c: int, s: int, sc: (i32, i32, i32)) -> Lanes {
    Seq::new(8, |k: int| profile_score(q, 8 * s + k, c, sc.0, sc.1))
}

/// The gap score as one lane.
pub open spec fn gap16(sc: (i32, i32, i32)) -> i16 {
    sc.2 as i16
}

/// The negated gap score, wrapping.
pub open spec fn neg_gap16(sc: (i32, i32, i32)) -> i16 {
    0i16.wrapping_sub(gap16(sc))
}

/// The starting lanes: block `j` of the first row holds the gap cost of columns
/// `8j + 1 ..= 8j + 8`; every other block is the lowest value.
pub open spec fn lanes_init(m: int, nsv: int, sc: (i32, i32, i32)) -> Seq<Seq<Lanes>> {
    Seq::new(
        m as nat,
        |i: int|
            Seq::new(
                nsv as nat,
                |j: int|
                    if i == 0 {
                        lmul(Seq::new(8, |k: int| (8 * j + k + 1) as i16), splat(neg_gap16(sc)))
                    } else {
                        splat(i16::MIN)
                    },
            ),
    )
}

/// The vertical and diagonal pass of node `v` from predecessor `ip`, over the
/// first `s` blocks: the row of `v` and the carried lane `x`.
pub open spec fn vert_pass(
    hh: Seq<Seq<Lanes>>,
    ip: int,
    v: int,
    x0: Lanes,
    q: Seq<u8>,
    c: int,
    sc: (i32, i32, i32),
    s: int,
) -> (Seq<Lanes>, Lanes)
    decreases s,
{
    if s <= 0 {
        (hh[v], x0)
    } else {
        let (row, x) = vert_pass(hh, ip, v, x0, q, c, sc, s - 1);
        let t = s - 1;
        let h_prev = if ip == v {
            row[t]
        } else {
            hh[ip][t]
        };
        let h_curr = if ip == v {
            splat(i16::MIN)
        } else {
            row[t]
        };
        let e = lsub(h_prev, splat(gap16(sc)));
        let t1 = lmul(rot(h_prev), first_mask());
        let t2 = ladd(ladd(lmul(rot(h_prev), shift_mask()), x), profile_block(q, c, t, sc));
        (row.update(t, lmax(lmax(h_curr, t2), e)), t1)
    }
}

/// The passes of node `v` from its first `k` predecessors.
pub open spec fn vert_all(
    hh: Seq<Seq<Lanes>>,
    prevs: Seq<usize>,
    v: int,
    idx: i16,
    q: Seq<u8>,
    c: int,
    sc: (i32, i32, i32),
    nsv: int,
    k: int,
) -> Seq<Seq<Lanes>>
    decreases k,
{
    if k <= 0 {
        hh
    } else {
        let h = vert_all(hh, prevs, v, idx, q, c, sc, nsv, k - 1);
        let x0 = lane_only(0, idx.wrapping_mul(neg_gap16(sc)));
        h.update(v, vert_pass(h, prevs[k - 1] as int, v, x0, q, c, sc, nsv).0)
    }
}

/// Eight rounds of shifting `t` in and keeping the lane-wise maximum with `f`.
pub open spec fn sweep(f: Lanes, t: Lanes, r: int) -> Lanes
    decreases r,
{
    if r <= 0 {
        f
    } else {
        let t2 = lmul(rot(t), shift_mask_low());
        sweep(lmax(f, t2), t2, r - 1)
    }
}

/// The horizontal pass over the first `s` blocks of row `row`, carrying `f`.
pub open spec fn horiz_pass(row: Seq<Lanes>, f0: Lanes, sc: (i32, i32, i32), s: int) -> (Seq<Lanes>, Lanes)
    decreases s,
{
    if s <= 0 {
        (row, f0)
    } else {
        let (r, f) = horiz_pass(row, f0, sc, s - 1);
        let t = s - 1;
        let h = r[t];
        let f1 = lmul(rot(f), first_mask());
        let f2 = ladd(ladd(lmul(rot(h), shift_mask()), f1), splat(gap16(sc)));
        let f3 = sweep(f2, f2, 8);
        let h2 = lmax(h, f3);
        (r.update(t, h2), h2)
    }
}

/// The lanes after the first `k` nodes of `order`, the `t`-th visited with
/// position `t` counted in wrapping 16-bit arithmetic.
pub open spec fn lanes_after(
    g: crate::graph::POAGraph,
    order: Seq<usize>,
    q: Seq<u8>,
    sc: (i32, i32, i32),
    k: int,
) -> Seq<Seq<Lanes>>
    decreases k,
{
    if k <= 0 {
        lanes_init(node_syms(g).len() as int, (q.len() / 8) as int, sc)
    } else {
        let hh = lanes_after(g, order, q, sc, k - 1);
        let v = order[k - 1] as int;
        let idx = count16(k - 1);
        let p0 = incoming_of(g, v as usize);
        let prevs = if p0.len() == 0 {
            seq![v as usize]
        } else {
            p0
        };
        let c = base_index(node_syms(g)[v]);
        let nsv = (q.len() / 8) as int;
        let h1 = vert_all(hh, prevs, v, idx, q, c, sc, nsv, prevs.len() as int);
        let f0 = lane_only(7, idx.wrapping_add(1).wrapping_mul(neg_gap16(sc)));
        h1.update(v, horiz_pass(h1[v], f0, sc, nsv).0)
    }
}

/// `t`, counted up from 0 in wrapping 16-bit arithmetic.
pub open spec fn count16(t: int) -> i16
    decreases t,
{
    if t <= 0 {
        0
    } else {
        count16(t - 1).wrapping_add(1)
    }
}

/// A row of lane blocks as values.
pub open spec fn row_model(row: Vec<[i16; 8]>) -> Seq<Lanes> {
    row@.map_values(|b: [i16; 8]| b@)
}

/// The lanes as values.
pub open spec fn lanes_model(hh: Vec<Vec<[i16; 8]>>) -> Seq<Seq<Lanes>> {
    hh@.map_values(|row: Vec<[i16; 8]>| row_model(row))
}

fn add8(a: [i16; 8], b: [i16; 8]) -> (r: [i16; 8])
    ensures
        r@ == ladd(a@, b@),
{
    let r = [
        a[0].wrapping_add(b[0]),
        a[1].wrapping_add(b[1]),
        a[2].wrapping_add(b[2]),
        a[3].wrapping_add(b[3]),
        a[4].wrapping_add(b[4]),
        a[5].wrapping_add(b[5]),
        a[6].wrapping_add(b[6]),
        a[7].wrapping_add(b[7]),
    ];
    assert(r@ =~= ladd(a@, b@));
    r
}

fn sub8(a: [i16; 8], b: [i16; 8]) -> (r: [i16; 8])
    ensures
        r@ == lsub(a@, b@),
{
    let r = [
        a[0].wrapping_sub(b[0]),
        a[1].wrapping_sub(b[1]),
        a[2].wrapping_sub(b[2]),
        a[3].wrapping_sub(b[3]),
        a[4].wrapping_sub(b[4]),
        a[5].wrapping_sub(b[5]),
        a[6].wrapping_sub(b[6]),
        a[7].wrapping_sub(b[7]),
    ];
    assert(r@ =~= lsub(a@, b@));
    r
}

fn mul8(a: [i16; 8], b: [i16; 8]) -> (r: [i16; 8])
    ensures
        r@ == lmul(a@, b@),
{
    let r = [
        a[0].wrapping_mul(b[0]),
        a[1].wrapping_mul(b[1]),
        a[2].wrapping_mul(b[2]),
        a[3].wrapping_mul(b[3]),
        a[4].wrapping_mul(b[4]),
        a[5].wrapping_mul(b[5]),
        a[6].wrapping_mul(b[6]),
        a[7].wrapping_mul(b[7]),
    ];
    assert(r@ =~= lmul(a@, b@));
    r
}

fn max1(a: i16, b: i16) -> (r: i16)
    ensures
        r == if a >= b { a } else { b },
{
    if a >= b {
        a
    } else {
        b
    }
}

fn max8(a: [i16; 8], b: [i16; 8]) -> (r: [i16; 8])
    ensures
        r@ == lmax(a@, b@),
{
    let r = [
        max1(a[0], b[0]),
        max1(a[1], b[1]),
        max1(a[2], b[2]),
        max1(a[3], b[3]),
        max1(a[4], b[4]),
        max1(a[5], b[5]),
        max1(a[6], b[6]),
        max1(a[7], b[7]),
    ];
    assert(r@ =~= lmax(a@, b@));
    r
}

fn rot8(a: [i16; 8]) -> (r: [i16; 8])
    ensures
        r@ == rot(a@),
{
    let r = [a[7], a[0], a[1], a[2], a[3], a[4], a[5], a[6]];
    assert(r@ =~= rot(a@));
    r
}

fn splat8(x: i16) -> (r: [i16; 8])
    ensures
        r@ == splat(x),
{
    let r = [x; 8];
    assert(r@ =~= splat(x));
    r
}

/// A copy of a row of lane blocks.
fn copy_row(v: &Vec<[i16; 8]>) -> (r: Vec<[i16; 8]>)
    ensures
        r@ == v@,
{
    let mut r: Vec<[i16; 8]> = Vec::new();
    let mut k: usize = 0;
    while k < v.len()
        invariant
            k <= v@.len(),
            r@ =~= v@.take(k as int),
        decreases v@.len() - k,
    {
        r.push(v[k]);
        k = k + 1;
    }
    assert(r@ =~= v@);
    r
}

impl Poa {
    /// The lane-vectorized pass for `query`, visiting the nodes in `order`: one
    /// row of blocks of eight lanes per node, indexed by node.
    #[verifier::loop_isolation(false)]
    pub fn lanes_with_order(&self, order: &Vec<usize>, query: &Vec<u8>) -> (r: Vec<Vec<[i16; 8]>>)
        requires
            self.wf(),
            query@.len() / 8 < 4096,
            forall|k: int| 0 <= k < order@.len() ==> #[trigger] order@[k] < node_syms(self.graph).len(),
            forall|v: int| 0 <= v < node_syms(self.graph).len() ==> is_profile_symbol(#[trigger] node_syms(self.graph)[v]),
        ensures
            lanes_model(r) == lanes_after(self.graph, order@, query@, self.scores(), order@.len() as int),
    {
        let ghost g = self.graph;
        let ghost sc = self.scores();
        let profile = Poa::profile_query(query, self.match_score, self.mismatch_score);
        #[verifier::truncate]
        let gap: i16 = (self.gap_open_score as i16);
        let gap8 = splat8(gap);
        let neg_gap: i16 = 0i16.wrapping_sub(gap);
        let neg8 = splat8(neg_gap);
        let first: [i16; 8] = [1, 0, 0, 0, 0, 0, 0, 0];
        let shift: [i16; 8] = [0, 1, 1, 1, 1, 1, 1, 1];
        let shift_low: [i16; 8] = [i16::MIN, 1, 1, 1, 1, 1, 1, 1];
        assert(first@ =~= first_mask());
        assert(shift@ =~= shift_mask());
        assert(shift_low@ =~= shift_mask_low());
        let m = node_count(&self.graph);
        let nsv = query.len() / 8;
        let ghost init = lanes_init(m as int, nsv as int, sc);
        let mut hh: Vec<Vec<[i16; 8]>> = Vec::new();
        let mut i: usize = 0;
        while i < m
            invariant
                i <= m,
                nsv < 4096,
                init == lanes_init(m as int, nsv as int, sc),
                neg8@ == splat(neg_gap16(sc)),
                lanes_model(hh) =~= init.take(i as int),
                hh@.len() == i,
                forall|x: int| 0 <= x < i ==> (#[trigger] hh@[x])@.len() == nsv,
            decreases m - i,
        {
            let mut row: Vec<[i16; 8]> = Vec::new();
            let mut j: usize = 0;
            while j < nsv
                invariant
                    j <= nsv,
                    nsv < 4096,
                    i < m,
                    init == lanes_init(m as int, nsv as int, sc),
                    neg8@ == splat(neg_gap16(sc)),
                    row_model(row) =~= init[i as int].take(j as int),
                    row@.len() == j,
                decreases nsv - j,
            {
                let block = if i == 0 {
                    let b: i16 = (8 * j) as i16;
                    let cols: [i16; 8] = [b + 1, b + 2, b + 3, b + 4, b + 5, b + 6, b + 7, b + 8];
                    assert(cols@ =~= Seq::new(8, |k: int| (8 * j + k + 1) as i16));
                    mul8(cols, neg8)
                } else {
                    splat8(i16::MIN)
                };
                let ghost before = row_model(row);
                row.push(block);
                j = j + 1;
                assert(row_model(row) =~= before.push(block@));
                assert(init[i as int].take(j as int) =~= init[i as int].take(j - 1).push(init[i as int][j - 1]));
            }
            assert(init[i as int].take(nsv as int) =~= init[i as int]);
            let ghost before = lanes_model(hh);
            hh.push(row);
            i = i + 1;
            assert(lanes_model(hh) =~= before.push(init[i - 1]));
            assert(init.take(i as int) =~= init.take(i - 1).push(init[i - 1]));
        }
        assert(init.take(m as int) =~= init);
        let mut idx: i16 = 0;
        let mut k: usize = 0;
        while k < order.len()
            invariant
                k <= order@.len(),
                self.graph == g,
                sc == self.scores(),
                m == node_syms(g).len(),
                nsv == query@.len() / 8,
                gap == gap16(sc),
                neg_gap == neg_gap16(sc),
                gap8@ == splat(gap16(sc)),
                first@ == first_mask(),
                shift@ == shift_mask(),
                shift_low@ == shift_mask_low(),
                profile@.len() == 4,
                forall|c: int| 0 <= c < 4 ==> (#[trigger] profile@[c])@.len() == nsv,
                forall|c: int, b: int, t: int|
                    0 <= c < 4 && 0 <= b < nsv && 0 <= t < 8 ==> #[trigger] profile@[c]@[b]@[t]
                        == profile_score(query@, 8 * b + t, c, sc.0, sc.1),
                forall|x: int| 0 <= x < order@.len() ==> #[trigger] order@[x] < m,
                forall|v: int| 0 <= v < m ==> is_profile_symbol(#[trigger] node_syms(g)[v]),
                idx == count16(k as int),
                hh@.len() == m,
                forall|x: int| 0 <= x < m ==> (#[trigger] hh@[x])@.len() == nsv,
                lanes_model(hh) == lanes_after(g, order@, query@, sc, k as int),
            decreases order@.len() - k,
        {
            let ghost h0 = lanes_model(hh);
            let v = order[k];
            let sym = node_symbol(&self.graph, v);
            let c: usize = if sym == 65 {
                0
            } else if sym == 67 {
                1
            } else if sym == 71 {
                2
            } else {
                3
            };
            assert(c == base_index(sym));
            let mut prevs = incoming(&self.graph, v);
            if prevs.len() == 0 {
                prevs.push(v);
                assert(prevs@ =~= seq![v]);
            }
            let mut cur = copy_row(&hh[v]);
            let mut t: usize = 0;
            while t < prevs.len()
                invariant
                    t <= prevs@.len(),
                    v < m,
                    c < 4,
                    lanes_model(hh) == h0,
                    hh@.len() == m,
                    forall|x: int| 0 <= x < m ==> (#[trigger] hh@[x])@.len() == nsv,
                    cur@.len() == nsv,
                    forall|y: int| 0 <= y < prevs@.len() ==> #[trigger] prevs@[y] < m,
                    h0.update(v as int, row_model(cur)) == vert_all(
                        h0,
                        prevs@,
                        v as int,
                        idx,
                        query@,
                        c as int,
                        sc,
                        nsv as int,
                        t as int,
                    ),
                decreases prevs@.len() - t,
            {
                let ip = prevs[t];
                let ghost hs = h0.update(v as int, row_model(cur));
                let ghost x0 = lane_only(0, idx.wrapping_mul(neg_gap16(sc)));
                let mut x: [i16; 8] = [idx.wrapping_mul(neg_gap), 0, 0, 0, 0, 0, 0, 0];
                assert(x@ =~= x0);
                let mut s: usize = 0;
                while s < nsv
                    invariant
                        s <= nsv,
                        v < m,
                        ip < m,
                        c < 4,
                        lanes_model(hh) == h0,
                        hh@.len() == m,
                        forall|x: int| 0 <= x < m ==> (#[trigger] hh@[x])@.len() == nsv,
                        cur@.len() == nsv,
                        hs == vert_all(h0, prevs@, v as int, idx, query@, c as int, sc, nsv as int, t as int),
                        hs[v as int].len() == nsv,
                        (row_model(cur), x@) == vert_pass(hs, ip as int, v as int, x0, query@, c as int, sc, s as int),
                    decreases nsv - s,
                {
                    let ghost before = row_model(cur);
                    let h_prev = if ip == v {
                        cur[s]
                    } else {
                        hh[ip][s]
                    };
                    let h_curr = if ip == v {
                        splat8(i16::MIN)
                    } else {
                        cur[s]
                    };
                    proof {
                        assert(lanes_model(hh)[ip as int] == row_model(hh@[ip as int]));
                        assert(profile@[c as int]@[s as int]@ =~= profile_block(query@, c as int, s as int, sc));
                    }
                    let e = sub8(h_prev, gap8);
                    let t1 = mul8(rot8(h_prev), first);
                    let t2 = add8(add8(mul8(rot8(h_prev), shift), x), profile[c][s]);
                    let hn = max8(max8(h_curr, t2), e);
                    cur.set(s, hn);
                    x = t1;
                    s = s + 1;
                    assert(row_model(cur) =~= before.update(s - 1, hn@));
                }
                proof {
                    assert(hs.update(v as int, row_model(cur)) =~= h0.update(v as int, row_model(cur)));
                }
                t = t + 1;
            }
            let ghost h1 = h0.update(v as int, row_model(cur));
            let ghost f0 = lane_only(7, idx.wrapping_add(1).wrapping_mul(neg_gap16(sc)));
            let mut f: [i16; 8] = [0, 0, 0, 0, 0, 0, 0, idx.wrapping_add(1).wrapping_mul(neg_gap)];
            assert(f@ =~= f0);
            let mut s: usize = 0;
            while s < nsv
                invariant
                    s <= nsv,
                    cur@.len() == nsv,
                    h1[v as int].len() == nsv,
                    (row_model(cur), f@) == horiz_pass(h1[v as int], f0, sc, s as int),
                decreases nsv - s,
            {
                let ghost before = row_model(cur);
                let h = cur[s];
                let f1 = mul8(rot8(f), first);
                let f2 = add8(add8(mul8(rot8(h), shift), f1), gap8);
                let mut t3 = f2;
                let mut ff = f2;
                let mut r: usize = 0;
                while r < 8
                    invariant
                        r <= 8,
                        shift_low@ == shift_mask_low(),
                        sweep(ff@, t3@, 8 - r) == sweep(f2@, f2@, 8),
                    decreases 8 - r,
                {
                    t3 = mul8(rot8(t3), shift_low);
                    ff = max8(ff, t3);
                    r = r + 1;
                }
                let h2 = max8(h, ff);
                cur.set(s, h2);
                f = h2;
                s = s + 1;
                assert(row_model(cur) =~= before.update(s - 1, h2@));
            }
            let ghost hb = lanes_model(hh);
            hh.set(v, cur);
            proof {
                assert(lanes_model(hh) =~= hb.update(v as int, row_model(cur)));
                assert(count16(k + 1) == idx.wrapping_add(1));
            }
            idx = idx.wrapping_add(1);
            k = k + 1;
        }
        hh
    }

    /// The lane-vectorized pass for `query`, nodes in petgraph's topological order.
    /// Fails with `EmptyGraph` on a graph without nodes, and with
    /// `UnsupportedSymbol` where a node holds other than A, C, G, T.
    pub fn custom_simd(&self, query: &Vec<u8>) -> (res: Result<Vec<Vec<[i16; 8]>>, PoaError>)
        requires
            self.edges_ok(),
            query@.len() / 8 < 4096,
        ensures
            node_syms(self.graph).len() == 0 <==> res == Err::<Vec<Vec<[i16; 8]>>, PoaError>(PoaError::EmptyGraph),
            node_syms(self.graph).len() > 0 && !all_profile(self.graph) <==> res == Err::<
                Vec<Vec<[i16; 8]>>,
                PoaError,
            >(PoaError::UnsupportedSymbol),
            res is Err ==> res == Err::<Vec<Vec<[i16; 8]>>, PoaError>(PoaError::EmptyGraph) || res == Err::<
                Vec<Vec<[i16; 8]>>,
                PoaError,
            >(PoaError::UnsupportedSymbol),
            res is Ok ==> lanes_model(res->Ok_0) == lanes_after(
                self.graph,
                topo_order(self.graph),
                query@,
                self.scores(),
                topo_order(self.graph).len() as int,
            ),
    {
        if node_count(&self.graph) == 0 {
            return Err(PoaError::EmptyGraph);
        }
        if !self.all_profile_symbols() {
            return Err(PoaError::UnsupportedSymbol);
        }
        let order = topological_order(&self.graph);
        Ok(self.lanes_with_order(&order, query))
    }
}

} // verus!
