use petgraph::graph::NodeIndex;
use poa_graph::graph::POAGraph;
use poa_graph::poa::{Aligner, Poa, PoaError};
use poa_graph::traceback::{sat_add, sat_mul, AlignmentOperation, Traceback, TracebackCell, MIN_SCORE};

fn weight(g: &POAGraph, a: usize, b: usize) -> Option<i32> {
    g.find_edge(NodeIndex::new(a), NodeIndex::new(b)).map(|e| g[e])
}

fn all_match(ops: &[AlignmentOperation]) -> bool {
    ops.iter().all(|op| matches!(op, AlignmentOperation::Match(_)))
}

#[test]
fn aar_scenario() {
    let reference = vec![65u8, 65, 82];
    let mut aligner = Aligner::new(1, -1, -2, &reference).unwrap();
    aligner.global(&reference);
    let aln = aligner.alignment();
    assert_eq!(aln.score, 3);
    assert_eq!(
        aln.operations(),
        &vec![
            AlignmentOperation::Match(None),
            AlignmentOperation::Match(Some((0, 1))),
            AlignmentOperation::Match(Some((1, 2))),
        ]
    );
    aligner.add_to_graph();
    let g = aligner.graph();
    assert_eq!(g.node_count(), 3);
    assert_eq!(g.edge_count(), 2);
    assert_eq!(weight(g, 0, 1), Some(2));
    assert_eq!(weight(g, 1, 2), Some(2));

    let second = vec![65u8, 65, 71];
    aligner.global(&second);
    assert_eq!(aligner.alignment().score, 1);
    aligner.add_to_graph();
    let g = aligner.graph();
    assert_eq!(g.node_count(), 4);
    assert_eq!(g[NodeIndex::new(3)], 71);
    assert_eq!(weight(g, 1, 2), Some(2));
    assert_eq!(weight(g, 1, 3), Some(1));
    assert_eq!(weight(g, 0, 1), Some(3));
    assert_eq!(aligner.consensus(), vec![65u8, 65, 82]);
}

#[test]
fn fresh_graph_consensus_is_reference() {
    for r in [vec![65u8], vec![65u8, 67, 71, 84], vec![84u8, 84, 84, 65, 65]] {
        let aligner = Aligner::new(2, -2, -2, &r).unwrap();
        assert_eq!(aligner.consensus(), r);
    }
}

#[test]
fn self_alignment_scores_match_per_symbol() {
    let r = b"ACGTTGCA".to_vec();
    let mut aligner = Aligner::new(2, -1, -3, &r).unwrap();
    aligner.global(&r);
    let aln = aligner.alignment();
    assert_eq!(aln.score, 16);
    assert_eq!(aln.operations().len(), r.len());
    assert!(all_match(aln.operations()));
    aligner.add_to_graph();
    let g = aligner.graph();
    assert_eq!(g.node_count(), r.len());
    assert_eq!(g.edge_count(), r.len() - 1);
    for k in 0..r.len() - 1 {
        assert_eq!(weight(g, k, k + 1), Some(2));
    }
}

#[test]
fn repeated_incorporation_adds_one_per_round() {
    let r = b"GATTACA".to_vec();
    let mut aligner = Aligner::new(1, -1, -2, &r).unwrap();
    for _ in 0..3 {
        aligner.global(&r);
        aligner.add_to_graph();
    }
    let g = aligner.graph();
    assert_eq!(g.node_count(), r.len());
    assert_eq!(g.edge_count(), r.len() - 1);
    for k in 0..r.len() - 1 {
        assert_eq!(weight(g, k, k + 1), Some(4));
    }
    assert_eq!(aligner.consensus(), r);
}

#[test]
fn alignment_is_deterministic() {
    let r = b"ACGTACGT".to_vec();
    let q = b"ACGAACT".to_vec();
    let mut aligner = Aligner::new(1, -1, -2, &r).unwrap();
    aligner.global(&q);
    let first = aligner.alignment();
    aligner.global(&q);
    let second = aligner.alignment();
    assert_eq!(first, second);
    assert_eq!(aligner.alignment(), first);
}

#[test]
fn mismatch_branches_and_majority_wins() {
    let r = b"ACT".to_vec();
    let mut aligner = Aligner::new(2, -2, -2, &r).unwrap();
    for q in [b"AGT".to_vec(), b"ACC".to_vec(), b"ACT".to_vec()] {
        aligner.global(&q).add_to_graph();
    }
    let g = aligner.graph();
    assert!(g.node_count() > 3);
    for k in 0..3 {
        assert_eq!(g[NodeIndex::new(k)], r[k]);
    }
    assert_eq!(aligner.consensus(), r);
}

#[test]
fn wildcard_matches_without_forking() {
    let r = b"ACG".to_vec();
    let mut aligner = Aligner::new(1, -1, -2, &r).unwrap();
    let q = b"AXG".to_vec();
    aligner.global(&q);
    aligner.add_to_graph();
    let g = aligner.graph();
    assert_eq!(g.node_count(), 3);
    assert_eq!(weight(g, 0, 1), Some(2));
    assert_eq!(weight(g, 1, 2), Some(2));
}

#[test]
fn insertion_creates_a_node() {
    let r = b"AC".to_vec();
    let mut aligner = Aligner::new(2, -2, -1, &r).unwrap();
    let q = b"AGC".to_vec();
    aligner.global(&q);
    let aln = aligner.alignment();
    assert_eq!(aln.score, 3);
    assert!(aln.operations().iter().any(|op| matches!(op, AlignmentOperation::Ins(_))));
    aligner.add_to_graph();
    let g = aligner.graph();
    assert_eq!(g.node_count(), 3);
    assert_eq!(g[NodeIndex::new(2)], b'G');
    assert_eq!(weight(g, 0, 2), Some(1));
}

#[test]
fn from_string_builds_a_chain() {
    let poa = Poa::from_string(1, -1, -2, &b"ACGT".to_vec()).unwrap();
    assert_eq!(poa.graph.node_count(), 4);
    assert_eq!(poa.graph.edge_count(), 3);
    for k in 0..3 {
        assert_eq!(weight(&poa.graph, k, k + 1), Some(1));
    }
    assert_eq!(poa.graph[NodeIndex::new(2)], b'G');
}

#[test]
fn root_row_and_fresh_rows() {
    let mut tb = Traceback::with_capacity(2, 3);
    tb.initialize_scores(-2);
    assert_eq!(tb.get(0, 0).score, 0);
    assert_eq!(tb.get(0, 0).op, AlignmentOperation::Match(None));
    assert_eq!(tb.get(0, 3).score, -6);
    assert_eq!(tb.get(0, 3).op, AlignmentOperation::Ins(None));
    tb.new_row(2, 4, -2, 0, 4);
    assert_eq!(tb.get(2, 0).score, -4);
    assert_eq!(tb.get(2, 0).op, AlignmentOperation::Del(None));
    assert_eq!(tb.get(2, 1).score, MIN_SCORE);
}

#[test]
fn out_of_band_sentinels() {
    let mut tb = Traceback::with_capacity(1, 6);
    tb.new_row(1, 3, -2, 2, 5);
    assert_eq!(tb.get(1, 0).op, AlignmentOperation::Del(None));
    assert_eq!(tb.get(1, 1).op, AlignmentOperation::Del(None));
    assert_eq!(tb.get(1, 5).op, AlignmentOperation::Ins(None));
    assert_eq!(tb.get(1, 6).score, MIN_SCORE);
    tb.set(1, 3, TracebackCell { score: 7, op: AlignmentOperation::Ins(Some(0)) });
    assert_eq!(tb.get(1, 3).score, 7);
    tb.set(1, 0, TracebackCell { score: 9, op: AlignmentOperation::Ins(Some(0)) });
    assert_eq!(tb.get(1, 0).score, MIN_SCORE);
}

#[test]
fn saturating_scores() {
    assert_eq!(sat_add(i32::MAX, 1), i32::MAX);
    assert_eq!(sat_add(MIN_SCORE, -5), MIN_SCORE - 5);
    assert_eq!(sat_add(i32::MIN, -1), i32::MIN);
    assert_eq!(sat_mul(3, -2), -6);
    assert_eq!(sat_mul(usize::MAX, -2), i32::MIN);
}

#[test]
fn empty_query_deletes_every_node() {
    let r = b"AC".to_vec();
    let mut aligner = Aligner::new(1, -1, -2, &r).unwrap();
    aligner.global(&Vec::new());
    let aln = aligner.alignment();
    assert_eq!(aln.score, -4);
    assert!(aln.operations().iter().all(|op| matches!(op, AlignmentOperation::Del(_))));
}

#[test]
fn profile_scores_each_base() {
    let q = b"ACGTACGTA".to_vec();
    let p = Poa::profile_query(&q, 2, -1);
    assert_eq!(p.len(), 4);
    assert_eq!(p[0], vec![[2i16, -1, -1, -1, 2, -1, -1, -1]]);
    assert_eq!(p[1], vec![[-1i16, 2, -1, -1, -1, 2, -1, -1]]);
    assert_eq!(p[2], vec![[-1i16, -1, 2, -1, -1, -1, 2, -1]]);
    assert_eq!(p[3], vec![[-1i16, -1, -1, 2, -1, -1, -1, 2]]);
    assert!(Poa::profile_query(&b"ACG".to_vec(), 1, -1).iter().all(|lanes| lanes.is_empty()));
}

#[test]
fn lane_pass_on_a_single_node() {
    let poa = Poa::from_string(1, -1, -2, &b"A".to_vec()).unwrap();
    let lanes = poa.custom_simd(&b"AAAAAAAA".to_vec()).unwrap();
    assert_eq!(lanes, vec![vec![[4i16, 6, 8, 10, 12, 14, 16, 18]]]);
}

#[test]
fn lane_pass_shape() {
    let poa = Poa::from_string(2, -2, -2, &b"ACGT".to_vec()).unwrap();
    let lanes = poa.custom_simd(&b"ACGTACGTACGTACGTAC".to_vec()).unwrap();
    assert_eq!(lanes.len(), 4);
    assert!(lanes.iter().all(|row| row.len() == 2));
}

#[test]
fn global_simd_records_query_and_returns_lanes() {
    let r = b"A".to_vec();
    let mut aligner = Aligner::new(1, -1, -2, &r).unwrap();
    let q = b"AAAAAAAA".to_vec();
    let lanes = aligner.global_simd(&q).unwrap();
    assert_eq!(aligner.query, q);
    assert_eq!(lanes, vec![vec![[4i16, 6, 8, 10, 12, 14, 16, 18]]]);
}

#[test]
fn empty_reference_is_refused() {
    assert_eq!(Poa::from_string(1, -1, -2, &Vec::new()).err(), Some(PoaError::EmptyReference));
    assert!(matches!(Aligner::new(1, -1, -2, &Vec::new()), Err(PoaError::EmptyReference)));
}

#[test]
fn empty_graph_is_refused() {
    let poa = Poa { match_score: 1, mismatch_score: -1, gap_open_score: -2, graph: POAGraph::default(), memory_usage: 0 };
    assert!(matches!(poa.custom(&b"AC".to_vec()), Err(PoaError::EmptyGraph)));
    assert!(matches!(poa.custom_simd(&b"ACGTACGT".to_vec()), Err(PoaError::EmptyGraph)));
}

#[test]
fn lane_pass_refuses_other_symbols() {
    let poa = Poa::from_string(1, -1, -2, &b"ACN".to_vec()).unwrap();
    assert!(!poa.all_profile_symbols());
    assert!(matches!(poa.custom_simd(&b"ACGTACGT".to_vec()), Err(PoaError::UnsupportedSymbol)));
    let mut aligner = Aligner::new(1, -1, -2, &b"ACN".to_vec()).unwrap();
    assert!(matches!(aligner.global_simd(&b"ACGTACGT".to_vec()), Err(PoaError::UnsupportedSymbol)));
    assert!(Poa::from_string(1, -1, -2, &b"ACGT".to_vec()).unwrap().all_profile_symbols());
}

#[test]
fn root_node_deletes_from_the_root_row() {
    let mut poa = Poa::from_string(1, -10, -1, &b"AAAAA".to_vec()).unwrap();
    poa.graph.add_node(b'C');
    let tb = poa.custom(&b"G".to_vec()).unwrap();
    assert_eq!(tb.get(6, 1).score, -2);
    assert_eq!(tb.get(6, 1).op, AlignmentOperation::Xclip(0));
}

#[test]
fn consensus_follows_the_heaviest_path() {
    let mut aligner = Aligner::new(1, -1, -2, &b"ACGT".to_vec()).unwrap();
    let x = aligner.poa.graph.add_node(b'X');
    aligner.poa.graph.add_edge(NodeIndex::new(0), NodeIndex::new(3), 2);
    aligner.poa.graph.add_edge(NodeIndex::new(0), x, 2);
    assert_eq!(aligner.consensus(), b"ACGT".to_vec());
}
